use vstd::prelude::*;
use bytes::BytesMut;
use vstd::string::StringSliceAdditionalSpecFns;
use crate::buffer::{bytes_of, bm_new, bm_with_capacity, bm_len, bm_get, bm_set, bm_resize, bm_extend, bm_as_slice, bm_as_mut_slice};
use crate::codec::{apply_mask, apply_mask_fast32, masked};

verus! {

/// Interpretation of the "Payload data" of a frame (RFC 6455, 5.2).
#[derive(Debug, Clone, Copy, PartialEq, Eq, Structural)]
pub enum OpCode {
    /// x0 denotes a continuation frame
    Continue,
    /// x1 denotes a text frame
    Text,
    /// x2 denotes a binary frame
    Binary,
    /// x3-7 are reserved for further non-control frames
    ReservedNonControl,
    /// x8 denotes a connection close
    Close,
    /// x9 denotes a ping
    Ping,
    /// xA denotes a pong
    Pong,
    /// xB-F are reserved for further control frames
    ReservedControl,
}

/// The wire value of an opcode.
pub open spec fn opcode_value(code: OpCode) -> u8 {
    match code {
        OpCode::Continue => 0,
        OpCode::Text => 1,
        OpCode::Binary => 2,
        OpCode::ReservedNonControl => 3,
        OpCode::Close => 8,
        OpCode::Ping => 9,
        OpCode::Pong => 10,
        OpCode::ReservedControl => 11,
    }
}

/// The opcode that a 4-bit wire value stands for.
pub open spec fn opcode_of_nibble(v: u8) -> OpCode {
    if v == 0 {
        OpCode::Continue
    } else if v == 1 {
        OpCode::Text
    } else if v == 2 {
        OpCode::Binary
    } else if 3 <= v <= 7 {
        OpCode::ReservedNonControl
    } else if v == 8 {
        OpCode::Close
    } else if v == 9 {
        OpCode::Ping
    } else if v == 10 {
        OpCode::Pong
    } else {
        OpCode::ReservedControl
    }
}

impl OpCode {
    /// get corresponding u8 value
    pub fn as_u8(&self) -> (r: u8)
        ensures
            r == opcode_value(*self),
    {
        match self {
            OpCode::Continue => 0,
            OpCode::Text => 1,
            OpCode::Binary => 2,
            OpCode::ReservedNonControl => 3,
            OpCode::Close => 8,
            OpCode::Ping => 9,
            OpCode::Pong => 10,
            OpCode::ReservedControl => 11,
        }
    }

    /// check is close type frame
    pub fn is_close(&self) -> (r: bool)
        ensures
            r == (*self == OpCode::Close),
    {
        matches!(self, OpCode::Close)
    }

    /// check is text/binary ?
    pub fn is_data(&self) -> (r: bool)
        ensures
            r == (*self == OpCode::Text || *self == OpCode::Binary || *self == OpCode::Continue),
    {
        matches!(self, OpCode::Text | OpCode::Binary | OpCode::Continue)
    }
}

/// Opcode of the low four bits of a byte. Every nibble names an opcode, so
/// the error side is never taken.
pub fn parse_opcode(val: u8) -> (r: Result<OpCode, u8>)
    ensures
        r == Ok::<OpCode, u8>(opcode_of_nibble(val & 0x0f)),
{
    let v: u8 = val << 4u8;
    assert(v == (val & 0x0f) * 16) by (bit_vector)
        requires v == val << 4u8;
    assert(val & 0x0f <= 15) by (bit_vector);
    if v == 0 {
        Ok(OpCode::Continue)
    } else if v == 16 {
        Ok(OpCode::Text)
    } else if v == 32 {
        Ok(OpCode::Binary)
    } else if v == 48 || v == 64 || v == 80 || v == 96 || v == 112 {
        Ok(OpCode::ReservedNonControl)
    } else if v == 128 {
        Ok(OpCode::Close)
    } else if v == 144 {
        Ok(OpCode::Ping)
    } else if v == 160 {
        Ok(OpCode::Pong)
    } else if v == 176 || v == 192 || v == 208 || v == 224 || v == 240 {
        Ok(OpCode::ReservedControl)
    } else {
        Err(v >> 4u8)
    }
}

/// Every opcode survives a trip through its wire value.
pub proof fn lemma_opcode_roundtrip(code: OpCode)
    ensures
        opcode_of_nibble(opcode_value(code)) == code,
        opcode_value(code) < 16,
{
}

impl Default for OpCode {
    fn default() -> (r: Self)
        ensures
            r == OpCode::Text,
    {
        OpCode::Text
    }
}

/// Whether the bit selected by `m` is set in `b`.
pub open spec fn flag(b: u8, m: u8) -> bool {
    b & m != 0
}

/// `b` with the bits of `m` set or cleared.
pub open spec fn with_flag(b: u8, m: u8, v: bool) -> u8 {
    if v {
        b | m
    } else {
        b & !m
    }
}

/// The mask that selects bit `bit_idx`, counted from the most significant bit.
pub open spec fn bit_mask(bit_idx: int) -> u8 {
    0x80u8 >> (bit_idx as u8)
}

/// read a bit of a byte, bits counted from the most significant one
pub fn get_bit(source: &[u8], byte_idx: usize, bit_idx: usize) -> (r: bool)
    requires
        byte_idx < source@.len(),
        bit_idx < 8,
    ensures
        r == flag(source@[byte_idx as int], bit_mask(bit_idx as int)),
{
    let b: u8 = source[byte_idx];
    let s: u8 = (7 - bit_idx) as u8;
    let r = 1u8 & (b >> s) != 0;
    let bi: u8 = bit_idx as u8;
    assert((1u8 & (b >> s) != 0) == (b & (0x80u8 >> bi) != 0)) by (bit_vector)
        requires
            s == 7 - bi,
            bi < 8,
    ;
    r
}

/// `b` with bit `bit_idx` (from the most significant) set to `val`
fn flag_byte(b: u8, bit_idx: usize, val: bool) -> (r: u8)
    requires
        bit_idx < 8,
    ensures
        r == with_flag(b, bit_mask(bit_idx as int), val),
{
    let s: u8 = (7 - bit_idx) as u8;
    let bi: u8 = bit_idx as u8;
    assert((1u8 << s) == (0x80u8 >> bi)) by (bit_vector)
        requires
            s == 7 - bi,
            bi < 8,
    ;
    if val {
        b | (1u8 << s)
    } else {
        b & !(1u8 << s)
    }
}

/// write a bit of a byte, bits counted from the most significant one
pub fn set_bit(source: &mut [u8], byte_idx: usize, bit_idx: usize, val: bool)
    requires
        byte_idx < old(source)@.len(),
        bit_idx < 8,
    ensures
        final(source)@ == old(source)@.update(
            byte_idx as int,
            with_flag(old(source)@[byte_idx as int], bit_mask(bit_idx as int), val),
        ),
{
    let b = source[byte_idx];
    source[byte_idx] = flag_byte(b, bit_idx, val);
}

// ---------------------------------------------------------------------------
// The header as bytes.
// ---------------------------------------------------------------------------

/// fin bit of a header
pub open spec fn h_fin(h: Seq<u8>) -> bool {
    flag(h[0], 0x80)
}

/// rsv1 bit of a header
pub open spec fn h_rsv1(h: Seq<u8>) -> bool {
    flag(h[0], 0x40)
}

/// rsv2 bit of a header
pub open spec fn h_rsv2(h: Seq<u8>) -> bool {
    flag(h[0], 0x20)
}

/// rsv3 bit of a header
pub open spec fn h_rsv3(h: Seq<u8>) -> bool {
    flag(h[0], 0x10)
}

/// opcode of a header
pub open spec fn h_opcode(h: Seq<u8>) -> OpCode {
    opcode_of_nibble(h[0] & 0x0f)
}

/// mask bit of a header
pub open spec fn h_masked(h: Seq<u8>) -> bool {
    flag(h[1], 0x80)
}

/// the 7-bit length field
pub open spec fn h_len7(h: Seq<u8>) -> u8 {
    h[1] & 0x7f
}

/// bytes taken by the second byte and the extended length
pub open spec fn h_len_occupied(h: Seq<u8>) -> int {
    if h_len7(h) <= 125 {
        1
    } else if h_len7(h) == 126 {
        3
    } else {
        9
    }
}

/// big-endian value of two bytes
pub open spec fn be16(a: u8, b: u8) -> u64 {
    (((a as u16) << 8u16) | (b as u16)) as u64
}

/// big-endian value of eight bytes starting at `off`
pub open spec fn be64(h: Seq<u8>, off: int) -> u64 {
    ((h[off] as u64) << 56u64) | ((h[off + 1] as u64) << 48u64) | ((h[off + 2] as u64) << 40u64)
        | ((h[off + 3] as u64) << 32u64) | ((h[off + 4] as u64) << 24u64) | ((h[off + 5] as u64)
        << 16u64) | ((h[off + 6] as u64) << 8u64) | (h[off + 7] as u64)
}

/// the eight big-endian bytes of `v`
pub open spec fn be64_bytes(v: u64) -> Seq<u8> {
    seq![
        (v >> 56u64) as u8,
        (v >> 48u64) as u8,
        (v >> 40u64) as u8,
        (v >> 32u64) as u8,
        (v >> 24u64) as u8,
        (v >> 16u64) as u8,
        (v >> 8u64) as u8,
        v as u8,
    ]
}

/// the payload length a header announces
pub open spec fn h_payload_len(h: Seq<u8>) -> u64 {
    if h_len7(h) <= 125 {
        h_len7(h) as u64
    } else if h_len7(h) == 126 {
        be16(h[2], h[3])
    } else {
        be64(h, 2)
    }
}

/// number of header bytes: first byte, length field, masking key
pub open spec fn h_header_len(h: Seq<u8>) -> int {
    1 + h_len_occupied(h) + if h_masked(h) {
        4int
    } else {
        0int
    }
}

/// the header holds every byte that its fields announce
pub open spec fn h_wf(h: Seq<u8>) -> bool {
    &&& h.len() >= 2
    &&& h.len() >= h_header_len(h)
}

/// the masking key of a header, if its mask bit is set
pub open spec fn h_mask_key(h: Seq<u8>) -> Option<Seq<u8>> {
    if h_masked(h) {
        Some(h.subrange(1 + h_len_occupied(h), 5 + h_len_occupied(h)))
    } else {
        None
    }
}

/// an optional key as bytes
pub open spec fn opt_key(m: Option<[u8; 4]>) -> Option<Seq<u8>> {
    match m {
        Some(k) => Some(k@),
        None => None,
    }
}

/// the bytes of an optional key
pub open spec fn key_bytes(m: Option<Seq<u8>>) -> Seq<u8> {
    match m {
        Some(k) => k,
        None => Seq::empty(),
    }
}

/// the first byte of a header with these fields
pub open spec fn first_byte(fin: bool, rsv1: bool, rsv2: bool, rsv3: bool, code: OpCode) -> u8 {
    (if fin { 0x80u8 } else { 0u8 }) | (if rsv1 { 0x40u8 } else { 0u8 }) | (if rsv2 {
        0x20u8
    } else {
        0u8
    }) | (if rsv3 { 0x10u8 } else { 0u8 }) | opcode_value(code)
}

proof fn lemma_first_byte(fin: bool, rsv1: bool, rsv2: bool, rsv3: bool, code: OpCode)
    ensures
        ({
            let b = first_byte(fin, rsv1, rsv2, rsv3, code);
            &&& flag(b, 0x80) == fin
            &&& flag(b, 0x40) == rsv1
            &&& flag(b, 0x20) == rsv2
            &&& flag(b, 0x10) == rsv3
            &&& b & 0x0f == opcode_value(code)
        }),
{
    let v = opcode_value(code);
    let a: u8 = if fin { 0x80u8 } else { 0u8 };
    let b: u8 = if rsv1 { 0x40u8 } else { 0u8 };
    let c: u8 = if rsv2 { 0x20u8 } else { 0u8 };
    let d: u8 = if rsv3 { 0x10u8 } else { 0u8 };
    assert({
        let x = a | b | c | d | v;
        &&& (x & 0x80 != 0) == (a == 0x80)
        &&& (x & 0x40 != 0) == (b == 0x40)
        &&& (x & 0x20 != 0) == (c == 0x20)
        &&& (x & 0x10 != 0) == (d == 0x10)
        &&& x & 0x0f == v
    }) by (bit_vector)
        requires
            v < 16,
            a == 0x80 || a == 0,
            b == 0x40 || b == 0,
            c == 0x20 || c == 0,
            d == 0x10 || d == 0,
    ;
}

/// the 7-bit length code of a header for `len`: the length itself up to
/// 125, then 126 (two length bytes follow) or 127 (eight length bytes follow)
pub open spec fn len_code(len: u64) -> u8 {
    if len <= 125 {
        len as u8
    } else if len <= 65535 {
        126
    } else {
        127
    }
}

/// A header built with a payload length up to 65535 reads back every field
/// it was built with.
proof fn lemma_short_header_roundtrip(
    fin: bool,
    rsv1: bool,
    rsv2: bool,
    rsv3: bool,
    mask: Option<Seq<u8>>,
    code: OpCode,
    len: u64,
)
    requires
        len <= 65535,
        mask matches Some(k) ==> k.len() == 4,
    ensures
        ({
            let h = frame_header(fin, rsv1, rsv2, rsv3, mask, code, len);
            &&& h_wf(h)
            &&& h.len() == h_header_len(h)
            &&& h_fin(h) == fin
            &&& h_rsv1(h) == rsv1
            &&& h_rsv2(h) == rsv2
            &&& h_rsv3(h) == rsv3
            &&& h_opcode(h) == code
            &&& h_masked(h) == mask is Some
            &&& h_payload_len(h) == len
            &&& h_mask_key(h) == mask
        }),
{
    let h = frame_header(fin, rsv1, rsv2, rsv3, mask, code, len);
    lemma_first_byte(fin, rsv1, rsv2, rsv3, code);
    lemma_opcode_roundtrip(code);
    let m: u8 = if mask is Some { 0x80u8 } else { 0u8 };
    let lc = len_code(len);
    assert(lc <= 126);
    let b1 = m | lc;
    assert((b1 & 0x80 != 0) == (m == 0x80) && b1 & 0x7f == lc) by (bit_vector)
        requires
            m == 0x80 || m == 0,
            lc <= 126,
            b1 == m | lc,
    ;
    assert(h[1] == b1);
    if len > 125 {
        let hi = (len >> 8u64) as u8;
        let lo = len as u8;
        assert(h[2] == hi && h[3] == lo);
        assert((((hi as u16) << 8u16) | (lo as u16)) as u64 == len) by (bit_vector)
            requires
                len <= 65535,
                hi == (len >> 8u64) as u8,
                lo == len as u8,
        ;
    }
    if let Some(k) = mask {
        assert(h.subrange(1 + h_len_occupied(h), 5 + h_len_occupied(h)) =~= k);
    }
}

proof fn lemma_bit_masks()
    ensures
        bit_mask(0) == 0x80u8,
        bit_mask(1) == 0x40u8,
        bit_mask(2) == 0x20u8,
        bit_mask(3) == 0x10u8,
{
    assert(0x80u8 >> 0u8 == 0x80u8) by (bit_vector);
    assert(0x80u8 >> 1u8 == 0x40u8) by (bit_vector);
    assert(0x80u8 >> 2u8 == 0x20u8) by (bit_vector);
    assert(0x80u8 >> 3u8 == 0x10u8) by (bit_vector);
}

/// Setting or clearing one of the four leading bits changes that bit only.
proof fn lemma_with_flag_first(b: u8, m: u8, v: bool)
    requires
        m == 0x80 || m == 0x40 || m == 0x20 || m == 0x10,
    ensures
        flag(with_flag(b, m, v), m) == v,
        m != 0x80 ==> flag(with_flag(b, m, v), 0x80) == flag(b, 0x80),
        m != 0x40 ==> flag(with_flag(b, m, v), 0x40) == flag(b, 0x40),
        m != 0x20 ==> flag(with_flag(b, m, v), 0x20) == flag(b, 0x20),
        m != 0x10 ==> flag(with_flag(b, m, v), 0x10) == flag(b, 0x10),
        with_flag(b, m, v) & 0x0f == b & 0x0f,
        with_flag(b, m, v) & 0x7f == (if m == 0x80 { b & 0x7f } else { with_flag(b, m, v) & 0x7f }),
{
    let x: u8 = if v { b | m } else { b & !m };
    assert({
        &&& (x & m != 0) == v
        &&& m != 0x80 ==> ((x & 0x80 != 0) == (b & 0x80 != 0))
        &&& m != 0x40 ==> ((x & 0x40 != 0) == (b & 0x40 != 0))
        &&& m != 0x20 ==> ((x & 0x20 != 0) == (b & 0x20 != 0))
        &&& m != 0x10 ==> ((x & 0x10 != 0) == (b & 0x10 != 0))
        &&& x & 0x0f == b & 0x0f
        &&& m == 0x80 ==> x & 0x7f == b & 0x7f
    }) by (bit_vector)
        requires
            m == 0x80 || m == 0x40 || m == 0x20 || m == 0x10,
            x == (if v { b | m } else { b & !m }),
    ;
}

/// the second byte of a header with its 7-bit length field
fn len_field(b1: u8) -> (r: u8)
    ensures
        r == b1 & 0x7f,
        r <= 127,
{
    let mut len = b1;
    len = (len << 1u8) >> 1u8;
    assert((b1 << 1u8) >> 1u8 == b1 & 0x7f) by (bit_vector);
    assert(b1 & 0x7f <= 127) by (bit_vector);
    len
}

/// (bytes taken by the length fields, payload length) of a header
pub(crate) fn frame_sep_of(h: &[u8]) -> (r: (usize, u64))
    requires
        h@.len() >= 2,
        h@.len() >= 1 + h_len_occupied(h@),
    ensures
        r.0 == h_len_occupied(h@),
        r.1 == h_payload_len(h@),
{
    let len = len_field(h[1]);
    if len <= 125 {
        (1, len as u64)
    } else if len == 126 {
        let hi = h[2];
        let lo = h[3];
        (1 + 2, (((hi as u16) << 8u16) | (lo as u16)) as u64)
    } else {
        let v: u64 = ((h[2] as u64) << 56u64) | ((h[3] as u64) << 48u64) | ((h[4] as u64) << 40u64)
            | ((h[5] as u64) << 32u64) | ((h[6] as u64) << 24u64) | ((h[7] as u64) << 16u64) | ((
        h[8] as u64) << 8u64) | (h[9] as u64);
        (1 + 8, v)
    }
}

pub(crate) fn masking_key_of(h: &[u8]) -> (r: Option<[u8; 4]>)
    requires
        h@.len() >= 2,
        h_masked(h@) ==> h_wf(h@),
    ensures
        opt_key(r) == h_mask_key(h@),
{
    if get_bit(h, 1, 0) {
        proof {
            lemma_bit_masks();
        }
        let occ = frame_sep_of(h).0;
        let arr: [u8; 4] = [h[1 + occ], h[2 + occ], h[3 + occ], h[4 + occ]];
        assert(arr@ =~= h@.subrange(1 + occ, 5 + occ));
        Some(arr)
    } else {
        proof {
            lemma_bit_masks();
        }
        None
    }
}

fn payload_idx_of(h: &[u8]) -> (r: (usize, usize))
    requires
        h_wf(h@),
        h_header_len(h@) + h_payload_len(h@) <= usize::MAX,
    ensures
        r.0 == h_header_len(h@),
        r.1 == h_header_len(h@) + h_payload_len(h@),
{
    proof {
        lemma_bit_masks();
    }
    let mut start_idx: usize = 1;
    let (len_occupied, len) = frame_sep_of(h);
    start_idx += len_occupied;
    if get_bit(h, 1, 0) {
        start_idx += 4;
    }
    (start_idx, start_idx + (len as usize))
}

/// The first byte that `Header::new` builds from a zero byte.
proof fn lemma_first_byte_built(fin: bool, rsv1: bool, rsv2: bool, rsv3: bool, code: OpCode)
    ensures
        (with_flag(with_flag(with_flag(with_flag(0u8, 0x80, fin), 0x40, rsv1), 0x20, rsv2), 0x10, rsv3)
            & 0xf0) | opcode_value(code) == first_byte(fin, rsv1, rsv2, rsv3, code),
{
    let v = opcode_value(code);
    lemma_opcode_roundtrip(code);
    let a: u8 = if fin { 0x80u8 } else { 0u8 };
    let b: u8 = if rsv1 { 0x40u8 } else { 0u8 };
    let c: u8 = if rsv2 { 0x20u8 } else { 0u8 };
    let d: u8 = if rsv3 { 0x10u8 } else { 0u8 };
    let z = 0u8;
    let x1: u8 = if fin { z | 0x80 } else { z & !0x80u8 };
    let x2: u8 = if rsv1 { x1 | 0x40 } else { x1 & !0x40u8 };
    let x3: u8 = if rsv2 { x2 | 0x20 } else { x2 & !0x20u8 };
    let x4: u8 = if rsv3 { x3 | 0x10 } else { x3 & !0x10u8 };
    assert((x4 & 0xf0) | v == a | b | c | d | v) by (bit_vector)
        requires
            z == 0,
            x1 == (if fin { z | 0x80 } else { z & !0x80u8 }),
            x2 == (if rsv1 { x1 | 0x40 } else { x1 & !0x40u8 }),
            x3 == (if rsv2 { x2 | 0x20 } else { x2 & !0x20u8 }),
            x4 == (if rsv3 { x3 | 0x10 } else { x3 & !0x10u8 }),
            a == (if fin { 0x80u8 } else { 0u8 }),
            b == (if rsv1 { 0x40u8 } else { 0u8 }),
            c == (if rsv2 { 0x20u8 } else { 0u8 }),
            d == (if rsv3 { 0x10u8 } else { 0u8 }),
    ;
}

/// frame header viewed in a buffer it borrows
#[derive(Debug, Clone, Copy)]
pub struct HeaderView<'a>(pub(crate) &'a BytesMut);

/// owned header buf
#[derive(Debug, Clone)]
pub struct Header(pub(crate) BytesMut);

impl<'a> View for HeaderView<'a> {
    type V = Seq<u8>;

    closed spec fn view(&self) -> Seq<u8> {
        bytes_of(*self.0)
    }
}

impl View for Header {
    type V = Seq<u8>;

    closed spec fn view(&self) -> Seq<u8> {
        bytes_of(self.0)
    }
}

impl<'a> HeaderView<'a> {
    /// get fin bit value
    pub fn fin(&self) -> (r: bool)
        requires
            self@.len() >= 1,
        ensures
            r == h_fin(self@),
    {
        proof { lemma_bit_masks(); }
        get_bit(bm_as_slice(self.0), 0, 0)
    }

    /// get rsv1 bit value
    pub fn rsv1(&self) -> (r: bool)
        requires
            self@.len() >= 1,
        ensures
            r == h_rsv1(self@),
    {
        proof { lemma_bit_masks(); }
        get_bit(bm_as_slice(self.0), 0, 1)
    }

    /// get rsv2 bit value
    pub fn rsv2(&self) -> (r: bool)
        requires
            self@.len() >= 1,
        ensures
            r == h_rsv2(self@),
    {
        proof { lemma_bit_masks(); }
        get_bit(bm_as_slice(self.0), 0, 2)
    }

    /// get rsv3 bit value
    pub fn rsv3(&self) -> (r: bool)
        requires
            self@.len() >= 1,
        ensures
            r == h_rsv3(self@),
    {
        proof { lemma_bit_masks(); }
        get_bit(bm_as_slice(self.0), 0, 3)
    }

    /// return frame opcode
    pub fn opcode(&self) -> (r: OpCode)
        requires
            self@.len() >= 1,
        ensures
            r == h_opcode(self@),
    {
        match parse_opcode(bm_get(self.0, 0)) {
            Ok(code) => code,
            Err(_) => unreached(),
        }
    }

    /// get mask bit value
    pub fn masked(&self) -> (r: bool)
        requires
            self@.len() >= 2,
        ensures
            r == h_masked(self@),
    {
        proof { lemma_bit_masks(); }
        get_bit(bm_as_slice(self.0), 1, 0)
    }

    /// return **payload** len
    pub fn payload_len(&self) -> (r: u64)
        requires
            self@.len() >= 2,
            self@.len() >= 1 + h_len_occupied(self@),
        ensures
            r == h_payload_len(self@),
    {
        frame_sep_of(bm_as_slice(self.0)).1
    }

    /// get frame mask key
    pub fn masking_key(&self) -> (r: Option<[u8; 4]>)
        requires
            self@.len() >= 2,
            h_masked(self@) ==> h_wf(self@),
        ensures
            opt_key(r) == h_mask_key(self@),
    {
        masking_key_of(bm_as_slice(self.0))
    }

    /// return (headerlen, the whole frame len)
    pub fn payload_idx(&self) -> (r: (usize, usize))
        requires
            h_wf(self@),
            h_header_len(self@) + h_payload_len(self@) <= usize::MAX,
        ensures
            r.0 == h_header_len(self@),
            r.1 == h_header_len(self@) + h_payload_len(self@),
    {
        payload_idx_of(bm_as_slice(self.0))
    }
}

/// write a masking key into a buffer at `idx`
fn write_key(b: &mut BytesMut, idx: usize, key: [u8; 4])
    requires
        idx + 4 == bytes_of(*old(b)).len(),
        idx + 4 <= usize::MAX,
    ensures
        bytes_of(*final(b)) == bytes_of(*old(b)).take(idx as int) + key@,
{
    bm_set(b, idx, key[0]);
    bm_set(b, idx + 1, key[1]);
    bm_set(b, idx + 2, key[2]);
    bm_set(b, idx + 3, key[3]);
    assert(bytes_of(*b) =~= bytes_of(*old(b)).take(idx as int) + key@);
}

impl Header {
    /// get fin bit value
    pub fn fin(&self) -> (r: bool)
        requires
            self@.len() >= 1,
        ensures
            r == h_fin(self@),
    {
        proof { lemma_bit_masks(); }
        get_bit(bm_as_slice(&self.0), 0, 0)
    }

    /// get rsv1 bit value
    pub fn rsv1(&self) -> (r: bool)
        requires
            self@.len() >= 1,
        ensures
            r == h_rsv1(self@),
    {
        proof { lemma_bit_masks(); }
        get_bit(bm_as_slice(&self.0), 0, 1)
    }

    /// get rsv2 bit value
    pub fn rsv2(&self) -> (r: bool)
        requires
            self@.len() >= 1,
        ensures
            r == h_rsv2(self@),
    {
        proof { lemma_bit_masks(); }
        get_bit(bm_as_slice(&self.0), 0, 2)
    }

    /// get rsv3 bit value
    pub fn rsv3(&self) -> (r: bool)
        requires
            self@.len() >= 1,
        ensures
            r == h_rsv3(self@),
    {
        proof { lemma_bit_masks(); }
        get_bit(bm_as_slice(&self.0), 0, 3)
    }

    /// return frame opcode
    pub fn opcode(&self) -> (r: OpCode)
        requires
            self@.len() >= 1,
        ensures
            r == h_opcode(self@),
    {
        match parse_opcode(bm_get(&self.0, 0)) {
            Ok(code) => code,
            Err(_) => unreached(),
        }
    }

    /// get mask bit value
    pub fn masked(&self) -> (r: bool)
        requires
            self@.len() >= 2,
        ensures
            r == h_masked(self@),
    {
        proof { lemma_bit_masks(); }
        get_bit(bm_as_slice(&self.0), 1, 0)
    }

    /// return **payload** len
    pub fn payload_len(&self) -> (r: u64)
        requires
            self@.len() >= 2,
            self@.len() >= 1 + h_len_occupied(self@),
        ensures
            r == h_payload_len(self@),
    {
        frame_sep_of(bm_as_slice(&self.0)).1
    }

    /// get frame mask key
    pub fn masking_key(&self) -> (r: Option<[u8; 4]>)
        requires
            self@.len() >= 2,
            h_masked(self@) ==> h_wf(self@),
        ensures
            opt_key(r) == h_mask_key(self@),
    {
        masking_key_of(bm_as_slice(&self.0))
    }

    /// return (headerlen, the whole frame len)
    pub fn payload_idx(&self) -> (r: (usize, usize))
        requires
            h_wf(self@),
            h_header_len(self@) + h_payload_len(self@) <= usize::MAX,
        ensures
            r.0 == h_header_len(self@),
            r.1 == h_header_len(self@) + h_payload_len(self@),
    {
        payload_idx_of(bm_as_slice(&self.0))
    }

    fn set_bit(&mut self, byte_idx: usize, bit_idx: usize, val: bool)
        requires
            byte_idx < old(self)@.len(),
            bit_idx < 8,
        ensures
            final(self)@ == old(self)@.update(
                byte_idx as int,
                with_flag(old(self)@[byte_idx as int], bit_mask(bit_idx as int), val),
            ),
    {
        let b = bm_get(&self.0, byte_idx);
        bm_set(&mut self.0, byte_idx, flag_byte(b, bit_idx, val));
    }

    /// set fin bit
    pub fn set_fin(&mut self, val: bool)
        requires
            old(self)@.len() >= 1,
        ensures
            final(self)@ == old(self)@.update(0, with_flag(old(self)@[0], 0x80, val)),
            h_fin(final(self)@) == val,
            h_rsv1(final(self)@) == h_rsv1(old(self)@),
            h_rsv2(final(self)@) == h_rsv2(old(self)@),
            h_rsv3(final(self)@) == h_rsv3(old(self)@),
            h_opcode(final(self)@) == h_opcode(old(self)@),
    {
        proof {
            lemma_bit_masks();
            lemma_with_flag_first(old(self)@[0], 0x80, val);
        }
        self.set_bit(0, 0, val)
    }

    /// set rsv1 bit
    pub fn set_rsv1(&mut self, val: bool)
        requires
            old(self)@.len() >= 1,
        ensures
            final(self)@ == old(self)@.update(0, with_flag(old(self)@[0], 0x40, val)),
            h_rsv1(final(self)@) == val,
            h_fin(final(self)@) == h_fin(old(self)@),
            h_rsv2(final(self)@) == h_rsv2(old(self)@),
            h_rsv3(final(self)@) == h_rsv3(old(self)@),
            h_opcode(final(self)@) == h_opcode(old(self)@),
    {
        proof {
            lemma_bit_masks();
            lemma_with_flag_first(old(self)@[0], 0x40, val);
        }
        self.set_bit(0, 1, val)
    }

    /// set rsv2 bit
    pub fn set_rsv2(&mut self, val: bool)
        requires
            old(self)@.len() >= 1,
        ensures
            final(self)@ == old(self)@.update(0, with_flag(old(self)@[0], 0x20, val)),
            h_rsv2(final(self)@) == val,
            h_fin(final(self)@) == h_fin(old(self)@),
            h_rsv1(final(self)@) == h_rsv1(old(self)@),
            h_rsv3(final(self)@) == h_rsv3(old(self)@),
            h_opcode(final(self)@) == h_opcode(old(self)@),
    {
        proof {
            lemma_bit_masks();
            lemma_with_flag_first(old(self)@[0], 0x20, val);
        }
        self.set_bit(0, 2, val)
    }

    /// set rsv3 bit
    pub fn set_rsv3(&mut self, val: bool)
        requires
            old(self)@.len() >= 1,
        ensures
            final(self)@ == old(self)@.update(0, with_flag(old(self)@[0], 0x10, val)),
            h_rsv3(final(self)@) == val,
            h_fin(final(self)@) == h_fin(old(self)@),
            h_rsv1(final(self)@) == h_rsv1(old(self)@),
            h_rsv2(final(self)@) == h_rsv2(old(self)@),
            h_opcode(final(self)@) == h_opcode(old(self)@),
    {
        proof {
            lemma_bit_masks();
            lemma_with_flag_first(old(self)@[0], 0x10, val);
        }
        self.set_bit(0, 3, val)
    }

    /// set opcode
    pub fn set_opcode(&mut self, code: OpCode)
        requires
            old(self)@.len() >= 1,
        ensures
            final(self)@ == old(self)@.update(0, (old(self)@[0] & 0xf0) | opcode_value(code)),
            h_opcode(final(self)@) == code,
            h_fin(final(self)@) == h_fin(old(self)@),
            h_rsv1(final(self)@) == h_rsv1(old(self)@),
            h_rsv2(final(self)@) == h_rsv2(old(self)@),
            h_rsv3(final(self)@) == h_rsv3(old(self)@),
    {
        let b0 = bm_get(&self.0, 0);
        let leading_bits = (b0 >> 4u8) << 4u8;
        let v = code.as_u8();
        proof {
            lemma_opcode_roundtrip(code);
        }
        let nb = leading_bits | v;
        assert({
            &&& nb == (b0 & 0xf0) | v
            &&& nb & 0x0f == v
            &&& (nb & 0x80 != 0) == (b0 & 0x80 != 0)
            &&& (nb & 0x40 != 0) == (b0 & 0x40 != 0)
            &&& (nb & 0x20 != 0) == (b0 & 0x20 != 0)
            &&& (nb & 0x10 != 0) == (b0 & 0x10 != 0)
        }) by (bit_vector)
            requires
                leading_bits == (b0 >> 4u8) << 4u8,
                nb == leading_bits | v,
                v < 16,
        ;
        bm_set(&mut self.0, 0, nb);
    }

    /// set the mask bit; the masking key bytes are left as they are
    pub fn set_mask(&mut self, mask: bool)
        requires
            old(self)@.len() >= 2,
        ensures
            final(self)@ == old(self)@.update(1, with_flag(old(self)@[1], 0x80, mask)),
            h_masked(final(self)@) == mask,
            h_len7(final(self)@) == h_len7(old(self)@),
    {
        proof {
            lemma_bit_masks();
            lemma_with_flag_first(old(self)@[1], 0x80, mask);
        }
        self.set_bit(1, 0, mask);
    }

    /// set header payload len, growing or shrinking the extended length as
    /// needed and keeping the masking key after it; returns the bytes taken by
    /// the second byte and the extended length
    pub fn set_payload_len(&mut self, len: u64) -> (r: usize)
        requires
            key_readable(old(self)@),
        ensures
            final(self)@ == with_payload_len(old(self)@, len),
            r == (if len <= 125 {
                1usize
            } else if len <= 65535 {
                3usize
            } else {
                9usize
            }),
    {
        let ghost h = self@;
        let mask = self.masking_key();
        let first = bm_get(&self.0, 0);
        let lb: u8 = bm_get(&self.0, 1) & 128u8;
        let mut out: Vec<u8> = Vec::new();
        out.push(first);
        push_len(&mut out, lb, len);
        if let Some(k) = mask {
            out.push(k[0]);
            out.push(k[1]);
            out.push(k[2]);
            out.push(k[3]);
            assert(k@ =~= seq![k[0], k[1], k[2], k[3]]);
        }
        bm_resize(&mut self.0, 0, 0);
        bm_extend(&mut self.0, out.as_slice());
        assert(self@ =~= with_payload_len(h, len));
        if len <= 125 {
            1
        } else if len <= 65535 {
            3
        } else {
            9
        }
    }

    pub(crate) fn raw(data: BytesMut) -> (r: Self)
        ensures
            r@ == bytes_of(data),
    {
        Self(data)
    }

    /// construct new header
    #[verifier::rlimit(40)]
    pub fn new(
        fin: bool,
        rsv1: bool,
        rsv2: bool,
        rsv3: bool,
        mask_key: Option<[u8; 4]>,
        opcode: OpCode,
        payload_len: u64,
    ) -> (r: Self)
        ensures
            r@ == frame_header(fin, rsv1, rsv2, rsv3, opt_key(mask_key), opcode, payload_len),
    {
        let mask = mask_key;
        let mut buf = bm_new();
        let mut header_len: usize = 1;
        if mask.is_some() {
            header_len += 4;
        }
        if payload_len <= 125 {
            header_len += 1;
        } else if payload_len <= 65535 {
            header_len += 3;
        } else {
            header_len += 9;
        }
        bm_resize(&mut buf, header_len, 0);
        let mut header = Self(buf);
        assert(header@ =~= Seq::new(header_len as nat, |_i: int| 0u8));
        header.set_fin(fin);
        header.set_rsv1(rsv1);
        header.set_rsv2(rsv2);
        header.set_rsv3(rsv3);
        header.set_opcode(opcode);
        let ghost h0 = header@;
        assert(h0[1] == 0);
        proof {
            lemma_first_byte_built(fin, rsv1, rsv2, rsv3, opcode);
        }
        proof {
            lemma_bit_masks();
            assert(h_len7(h0) == 0) by {
                assert(0u8 & 0x7f == 0) by (bit_vector);
            }
            assert(!h_masked(h0)) by {
                assert(0u8 & 0x80 == 0) by (bit_vector);
            }
        }
        header.set_payload_len(payload_len);
        let ghost h1 = header@;
        let ghost lc = len_code(payload_len);
        let ghost fb = first_byte(fin, rsv1, rsv2, rsv3, opcode);
        assert((0u8 & 128u8) | lc == lc) by (bit_vector);
        assert(h1 =~= seq![fb, lc] + rfc_len_bytes(payload_len));
        if let Some(mask) = mask {
            header.set_mask(true);
            let ghost h2 = header@;
            assert(with_flag(lc, 0x80, true) == 0x80u8 | lc) by (bit_vector);
            assert(h2 =~= seq![fb, 0x80u8 | lc] + rfc_len_bytes(payload_len));
            bm_extend(&mut header.0, &mask);
            assert(header@ =~= h2 + mask@);
        } else {
            assert(0u8 | lc == lc) by (bit_vector);
        }
        assert(header@ =~= frame_header(fin, rsv1, rsv2, rsv3, opt_key(mask_key), opcode, payload_len));
        header
    }
}

/// a header with its mask bit cleared and its last four bytes (where a
/// masking key is kept) dropped, if the mask bit was set
pub open spec fn unmasked_header(h: Seq<u8>) -> Seq<u8> {
    if h_masked(h) {
        h.update(1, h[1] & 0x7f).take(h.len() - 4)
    } else {
        h
    }
}

/// the payload once the masking key of header `h`, if any, is undone
pub open spec fn unmasked_payload(h: Seq<u8>, p: Seq<u8>) -> Seq<u8> {
    match h_mask_key(h) {
        Some(k) => masked(p, [k[0], k[1], k[2], k[3]]),
        None => p,
    }
}

/// a header that reading the masking key does not break
pub open spec fn key_readable(h: Seq<u8>) -> bool {
    h.len() >= 2 && (h_masked(h) ==> h_wf(h))
}

/// unified frame type
#[derive(Debug, Clone)]
pub enum Frame<'a> {
    /// owned header and payload
    Owned(OwnedFrame),
    /// header borrowed from a read buffer
    BorrowedFrame(BorrowedFrame<'a>),
}

/// a frame that owns its header and payload bytes
#[derive(Debug, Clone)]
pub struct OwnedFrame {
    header: Header,
    payload: BytesMut,
}

impl OwnedFrame {
    /// the header bytes
    pub closed spec fn spec_header(self) -> Seq<u8> {
        self.header@
    }

    /// the payload bytes
    pub closed spec fn spec_payload(self) -> Seq<u8> {
        bytes_of(self.payload)
    }

    /// a final frame with the given opcode; the payload is masked when a key is given
    pub fn new(code: OpCode, mask: Option<[u8; 4]>, data: &[u8]) -> (r: Self)
        ensures
            r.spec_header() == frame_header(true, false, false, false, opt_key(mask), code, data@.len() as u64),
            r.spec_payload() == match mask {
                Some(k) => masked(data@, k),
                None => data@,
            },
    {
        let header = Header::new(true, false, false, false, mask, code, data.len() as u64);
        proof {
            lemma_frame_header_roundtrip(true, false, false, false, opt_key(mask), code, data@.len() as u64);
            lemma_bit_masks();
            let lc = len_code(data@.len() as u64);
            assert((0u8 | lc) & 0x80 == 0) by (bit_vector) requires lc <= 127;
        }
        let mut payload = bm_with_capacity(data.len());
        bm_extend(&mut payload, data);
        assert(bytes_of(payload) =~= data@);
        if let Some(key) = header.masking_key() {
            assert(key@ == mask->0@);
            assert(key == mask->0);
            apply_mask(bm_as_mut_slice(&mut payload), key);
        }
        Self { header, payload }
    }

    /// construct with header and payload as they are
    pub fn with_raw(header: Header, payload: BytesMut) -> (r: Self)
        ensures
            r.spec_header() == header@,
            r.spec_payload() == bytes_of(payload),
    {
        Self { header, payload }
    }

    /// a final text frame
    pub fn text_frame(mask: Option<[u8; 4]>, data: &str) -> (r: Self)
        ensures
            r.spec_header() == frame_header(true, false, false, false, opt_key(mask), OpCode::Text, data.spec_bytes().len() as u64),
            r.spec_payload() == match mask {
                Some(k) => masked(data.spec_bytes(), k),
                None => data.spec_bytes(),
            },
    {
        Self::new(OpCode::Text, mask, data.as_bytes())
    }

    /// a final binary frame
    pub fn binary_frame(mask: Option<[u8; 4]>, data: &[u8]) -> (r: Self)
        ensures
            r.spec_header() == frame_header(true, false, false, false, opt_key(mask), OpCode::Binary, data@.len() as u64),
            r.spec_payload() == match mask {
                Some(k) => masked(data@, k),
                None => data@,
            },
    {
        Self::new(OpCode::Binary, mask, data)
    }

    /// a ping frame; control frame payloads hold at most 125 bytes
    pub fn ping_frame(mask: Option<[u8; 4]>, data: &[u8]) -> (r: Self)
        requires
            data@.len() <= 125,
        ensures
            r.spec_header() == frame_header(true, false, false, false, opt_key(mask), OpCode::Ping, data@.len() as u64),
            r.spec_payload() == match mask {
                Some(k) => masked(data@, k),
                None => data@,
            },
    {
        Self::new(OpCode::Ping, mask, data)
    }

    /// a pong frame; control frame payloads hold at most 125 bytes
    pub fn pong_frame(mask: Option<[u8; 4]>, data: &[u8]) -> (r: Self)
        requires
            data@.len() <= 125,
        ensures
            r.spec_header() == frame_header(true, false, false, false, opt_key(mask), OpCode::Pong, data@.len() as u64),
            r.spec_payload() == match mask {
                Some(k) => masked(data@, k),
                None => data@,
            },
    {
        Self::new(OpCode::Pong, mask, data)
    }

    /// a close frame with an optional status code followed by a reason
    pub fn close_frame(mask: Option<[u8; 4]>, code: Option<u16>, data: &[u8]) -> (r: Self)
        requires
            data@.len() <= 123,
            code is Some || data@.len() == 0,
        ensures
            ({
                let body = close_body(code, data@);
                &&& r.spec_header() == frame_header(true, false, false, false, opt_key(mask), OpCode::Close, body.len() as u64)
                &&& r.spec_payload() == match mask {
                    Some(k) => masked(body, k),
                    None => body,
                }
            }),
    {
        let mut payload = bm_with_capacity(2 + data.len());
        if let Some(code) = code {
            let be: [u8; 2] = [(code >> 8u16) as u8, code as u8];
            bm_extend(&mut payload, &be);
            bm_extend(&mut payload, data);
        }
        assert(bytes_of(payload) =~= close_body(code, data@));
        Self::new(OpCode::Close, mask, bm_as_slice(&payload))
    }

    /// undo the payload mask and drop the key from the header; returns the key
    pub fn unmask(&mut self) -> (r: Option<[u8; 4]>)
        requires
            key_readable(old(self).spec_header()),
        ensures
            opt_key(r) == h_mask_key(old(self).spec_header()),
            final(self).spec_header() == unmasked_header(old(self).spec_header()),
            final(self).spec_payload() == unmasked_payload(old(self).spec_header(), old(self).spec_payload()),
    {
        if let Some(mask) = self.header.masking_key() {
            proof {
                lemma_bit_masks();
            }
            apply_mask_fast32(bm_as_mut_slice(&mut self.payload), mask);
            self.header.set_mask(false);
            let n = bm_len(&self.header.0);
            bm_resize(&mut self.header.0, n - 4, 0);
            proof {
                let h = old(self).spec_header();
                assert(with_flag(h[1], 0x80, false) == h[1] & 0x7f) by (bit_vector);
                assert(mask@ =~= seq![mask[0], mask[1], mask[2], mask[3]]);
                assert([mask[0], mask[1], mask[2], mask[3]] =~= mask);
            }
            Some(mask)
        } else {
            None
        }
    }

    /// replace any mask by the given key
    pub fn mask(&mut self, mask: [u8; 4])
        requires
            key_readable(old(self).spec_header()),
        ensures
            final(self).spec_header() == unmasked_header(old(self).spec_header()).update(
                1, unmasked_header(old(self).spec_header())[1] | 0x80) + mask@,
            final(self).spec_payload() == masked(
                unmasked_payload(old(self).spec_header(), old(self).spec_payload()), mask),
    {
        self.unmask();
        proof {
            lemma_bit_masks();
            let h = old(self).spec_header();
            if h_masked(h) {
                assert(h.len() >= 6);
            }
            assert(forall|b: u8| with_flag(b, 0x80, true) == b | 0x80) by {
                assert(forall|b: u8| #[trigger] (b | 0x80) == (b | 0x80)) ;
                assert forall|b: u8| with_flag(b, 0x80, true) == b | 0x80 by {
                    assert((if true { b | 0x80u8 } else { b & !0x80u8 }) == b | 0x80u8) by (bit_vector);
                }
            }
        }
        self.header.set_mask(true);
        bm_extend(&mut self.header.0, &mask);
        apply_mask_fast32(bm_as_mut_slice(&mut self.payload), mask);
    }

    /// append payload bytes, keeping the mask if there is one and updating
    /// the length in the header
    pub fn extend_from_slice(&mut self, data: &[u8])
        requires
            h_wf(old(self).spec_header()),
            old(self).spec_payload().len() + data@.len() <= usize::MAX,
        ensures
            ({
                let h = old(self).spec_header();
                let up = unmasked_payload(h, old(self).spec_payload()) + data@;
                let h1 = with_payload_len(unmasked_header(h), up.len() as u64);
                match h_mask_key(h) {
                    Some(k) => {
                        &&& final(self).spec_header() == h1.update(1, h1[1] | 0x80) + k
                        &&& final(self).spec_payload() == masked(up, [k[0], k[1], k[2], k[3]])
                    },
                    None => {
                        &&& final(self).spec_header() == h1
                        &&& final(self).spec_payload() == up
                    },
                }
            }),
    {
        let ghost h = self.spec_header();
        proof {
            lemma_bit_masks();
            if h_masked(h) {
                let b = h[1];
                assert((b & 0x7f) & 0x7f == b & 0x7f && (b & 0x7f) & 0x80 == 0) by (bit_vector);
            }
        }
        if let Some(mask) = self.unmask() {
            bm_extend(&mut self.payload, data);
            let n = bm_len(&self.payload);
            self.header.set_payload_len(n as u64);
            proof {
                let h1 = self.spec_header();
                let lc = len_code(n as u64);
                let b = unmasked_header(h)[1];
                assert(((b & 128) | lc) & 0x80 == 0) by (bit_vector)
                    requires b & 0x80 == 0, lc <= 127;
                assert(mask@ =~= seq![mask[0], mask[1], mask[2], mask[3]]);
                assert([mask[0], mask[1], mask[2], mask[3]] =~= mask);
            }
            self.mask(mask);
        } else {
            bm_extend(&mut self.payload, data);
            let n = bm_len(&self.payload);
            self.header.set_payload_len(n as u64);
        }
    }

    /// the header
    pub fn header(&self) -> (r: &Header)
        ensures
            r@ == self.spec_header(),
    {
        &self.header
    }

    /// the header, for changing in place
    pub fn header_mut(&mut self) -> (r: &mut Header)
        ensures
            r@ == old(self).spec_header(),
            final(self).spec_header() == final(r)@,
            final(self).spec_payload() == old(self).spec_payload(),
    {
        &mut self.header
    }

    /// the payload as it is held, masked if the header has a key
    pub fn payload(&self) -> (r: &BytesMut)
        ensures
            bytes_of(*r) == self.spec_payload(),
    {
        &self.payload
    }

    /// unmask and split into header and payload
    pub fn parts(self) -> (r: (Header, BytesMut))
        requires
            key_readable(self.spec_header()),
        ensures
            r.0@ == unmasked_header(self.spec_header()),
            bytes_of(r.1) == unmasked_payload(self.spec_header(), self.spec_payload()),
    {
        let mut s = self;
        s.unmask();
        (s.header, s.payload)
    }
}

/// A frame built with a masking key gives that key back when unmasked, is
/// left with the payload it was built from and with the header of the same
/// frame built without a key (fin, no rsv bit, the opcode, the payload's
/// length); unmasking it again finds no key and changes nothing.
pub proof fn lemma_new_then_unmask(code: OpCode, k: [u8; 4], data: Seq<u8>)
    requires
        data.len() <= u64::MAX,
    ensures
        ({
            let len = data.len() as u64;
            let h = frame_header(true, false, false, false, Some(k@), code, len);
            let h0 = frame_header(true, false, false, false, None, code, len);
            &&& key_readable(h)
            &&& h_mask_key(h) == Some(k@)
            &&& unmasked_header(h) == h0
            &&& unmasked_payload(h, masked(data, k)) == data
            &&& key_readable(h0)
            &&& h_mask_key(h0) is None
            &&& unmasked_header(h0) == h0
            &&& unmasked_payload(h0, data) == data
            &&& h_payload_len(h0) == len
            &&& !h_masked(h0)
            &&& simplified_of(h0) == SimplifiedHeader { fin: true, rsv1: false, rsv2: false, rsv3: false, code }
        }),
{
    let len = data.len() as u64;
    let h = frame_header(true, false, false, false, Some(k@), code, len);
    let h0 = frame_header(true, false, false, false, None, code, len);
    lemma_frame_header_roundtrip(true, false, false, false, Some(k@), code, len);
    lemma_frame_header_roundtrip(true, false, false, false, None, code, len);
    let lc = len_code(len);
    assert(lc <= 127);
    assert((0x80u8 | lc) & 0x7f == lc && (0u8 | lc) == lc) by (bit_vector)
        requires
            lc <= 127,
    ;
    assert(h[1] == 0x80u8 | lc);
    assert(h0[1] == 0u8 | lc);
    assert(unmasked_header(h) =~= h0);
    assert(k@ =~= seq![k[0], k[1], k[2], k[3]]);
    assert([k[0], k[1], k[2], k[3]] =~= k);
    crate::codec::lemma_mask_involution(data, k);
}

/// the bytes of a frame as it is held: header, then payload
pub(crate) fn frame_wire_bytes(frame: &OwnedFrame) -> (r: Vec<u8>)
    ensures
        r@ == frame.spec_header() + frame.spec_payload(),
{
    let mut out: Vec<u8> = Vec::new();
    out.extend_from_slice(bm_as_slice(&frame.header.0));
    out.extend_from_slice(bm_as_slice(&frame.payload));
    out
}

/// the header `Header::set_payload_len` leaves for `len`: the first byte and
/// the mask bit kept, the length code and extended length for `len`, then
/// the masking key, if any
pub open spec fn with_payload_len(h: Seq<u8>, len: u64) -> Seq<u8> {
    seq![h[0], (h[1] & 128) | len_code(len)] + rfc_len_bytes(len) + key_bytes(h_mask_key(h))
}

/// the payload of a close frame: the status code in two big-endian bytes,
/// then the reason
pub open spec fn close_body(code: Option<u16>, data: Seq<u8>) -> Seq<u8> {
    match code {
        Some(c) => seq![(c >> 8u16) as u8, c as u8] + data,
        None => Seq::empty(),
    }
}

/// a frame whose header is borrowed from a read buffer
#[derive(Debug, Clone)]
pub struct BorrowedFrame<'a> {
    header: HeaderView<'a>,
    payload: &'a [u8],
}

impl<'a> BorrowedFrame<'a> {
    /// the header bytes
    pub closed spec fn spec_header(self) -> Seq<u8> {
        self.header@
    }

    /// the payload bytes
    pub closed spec fn spec_payload(self) -> Seq<u8> {
        self.payload@
    }

    /// the header
    pub fn header(&self) -> (r: HeaderView<'a>)
        ensures
            r@ == self.spec_header(),
    {
        self.header
    }

    /// the payload
    pub fn payload(&self) -> (r: &'a [u8])
        ensures
            r@ == self.spec_payload(),
    {
        self.payload
    }
}

// ---------------------------------------------------------------------------
// Payloads made of several byte slices.
// ---------------------------------------------------------------------------

/// Flattening the first `i + 1` parts adds part `i` to the flattened first `i`,
/// and a prefix never flattens to more than the whole.
pub proof fn lemma_flatten_prefix<A>(s: Seq<Seq<A>>, i: int)
    requires
        0 <= i < s.len(),
    ensures
        s.take(i + 1).flatten() == s.take(i).flatten() + s[i],
        s.take(i).flatten().len() + s[i].len() <= s.flatten().len(),
{
    vstd::seq_lib::lemma_flatten_concat(s.take(i), seq![s[i]]);
    assert(s.take(i + 1) =~= s.take(i) + seq![s[i]]);
    seq![s[i]].lemma_flatten_one_element();
    vstd::seq_lib::lemma_flatten_concat(s.take(i + 1), s.skip(i + 1));
    assert(s.take(i + 1) + s.skip(i + 1) =~= s);
}

/// a collection of immutable payload(vector of u8 slice)
#[derive(Clone, Debug)]
pub struct Payload<'a>(pub(crate) Vec<&'a [u8]>);

impl<'a> View for Payload<'a> {
    type V = Seq<Seq<u8>>;

    closed spec fn view(&self) -> Seq<Seq<u8>> {
        self.0@.map_values(|s: &'a [u8]| s@)
    }
}

/// total length of the parts of `v`
fn total_len(v: &Vec<&[u8]>) -> (r: usize)
    requires
        v@.map_values(|s: &[u8]| s@).flatten().len() <= usize::MAX,
    ensures
        r == v@.map_values(|s: &[u8]| s@).flatten().len(),
{
    let ghost parts = v@.map_values(|s: &[u8]| s@);
    let mut total: usize = 0;
    let mut i: usize = 0;
    while i < v.len()
        invariant
            i <= v@.len(),
            parts == v@.map_values(|s: &[u8]| s@),
            parts.flatten().len() <= usize::MAX,
            total == parts.take(i as int).flatten().len(),
        decreases v@.len() - i,
    {
        proof {
            lemma_flatten_prefix(parts, i as int);
        }
        total = total + v[i].len();
        i += 1;
    }
    assert(parts.take(v@.len() as int) =~= parts);
    total
}

impl<'a> From<Vec<&'a [u8]>> for Payload<'a> {
    fn from(data: Vec<&'a [u8]>) -> (r: Self) {
        Self(data)
    }
}

impl<'a> vstd::std_specs::convert::FromSpecImpl<Vec<&'a [u8]>> for Payload<'a> {
    open spec fn obeys_from_spec() -> bool {
        true
    }

    closed spec fn from_spec(v: Vec<&'a [u8]>) -> Payload<'a> {
        Payload(v)
    }
}

/// A payload made from parts holds those parts, in order.
pub proof fn lemma_payload_from_parts<'a>(v: Vec<&'a [u8]>)
    ensures
        <Payload<'a> as vstd::std_specs::convert::FromSpec<Vec<&'a [u8]>>>::from_spec(v)@ == v@.map_values(
            |s: &'a [u8]| s@,
        ),
{
}

/// the groups closed while cutting `rest` after the full groups `ret`: whole
/// groups of `size` bytes are cut off while more than `size` bytes are left;
/// what is left opens the next group
pub open spec fn split_rest(ret: Seq<Seq<Seq<u8>>>, rest: Seq<u8>, size: int) -> (Seq<Seq<Seq<u8>>>, Seq<Seq<u8>>)
    decreases rest.len(),
{
    if size <= 0 || rest.len() <= size {
        (ret, seq![rest])
    } else {
        split_rest(ret.push(seq![rest.take(size)]), rest.skip(size), size)
    }
}

/// the closed groups and the open group of `Payload::split_with` after the
/// given parts: a part joins the open group while the group stays within
/// `size` bytes; otherwise the part is cut where the group reaches `size`
/// bytes, the group is closed, and the rest of the part is cut into groups
/// of `size` bytes, the last of which stays open (with `size` 0 nothing is
/// cut)
pub open spec fn split_fold(parts: Seq<Seq<u8>>, size: int) -> (Seq<Seq<Seq<u8>>>, Seq<Seq<u8>>)
    decreases parts.len(),
{
    if parts.len() == 0 {
        (Seq::empty(), Seq::empty())
    } else {
        let (ret, acc) = split_fold(parts.drop_last(), size);
        let arr = parts.last();
        let pre = acc.flatten().len();
        if size <= 0 || pre + arr.len() <= size {
            (ret, acc.push(arr))
        } else {
            let stop = size - pre;
            split_rest(ret.push(acc.push(arr.take(stop))), arr.skip(stop), size)
        }
    }
}

/// the groups `Payload::split_with` returns
pub open spec fn split_groups(parts: Seq<Seq<u8>>, size: int) -> Seq<Seq<Seq<u8>>> {
    let (ret, acc) = split_fold(parts, size);
    ret.push(acc)
}

/// every group holds its bytes in order
pub open spec fn flatten_groups(g: Seq<Seq<Seq<u8>>>) -> Seq<u8> {
    g.map_values(|x: Seq<Seq<u8>>| x.flatten()).flatten()
}

/// the groups all hold `size` bytes
pub open spec fn groups_full(g: Seq<Seq<Seq<u8>>>, size: int) -> bool {
    forall|i: int| 0 <= i < g.len() ==> (#[trigger] g[i]).flatten().len() == size
}

proof fn lemma_flatten_groups_push(g: Seq<Seq<Seq<u8>>>, x: Seq<Seq<u8>>)
    ensures
        flatten_groups(g.push(x)) == flatten_groups(g) + x.flatten(),
{
    let m = g.map_values(|y: Seq<Seq<u8>>| y.flatten());
    assert(g.push(x).map_values(|y: Seq<Seq<u8>>| y.flatten()) =~= m + seq![x.flatten()]);
    vstd::seq_lib::lemma_flatten_concat(m, seq![x.flatten()]);
    seq![x.flatten()].lemma_flatten_one_element();
}

proof fn lemma_flatten_push(acc: Seq<Seq<u8>>, arr: Seq<u8>)
    ensures
        acc.push(arr).flatten() == acc.flatten() + arr,
{
    vstd::seq_lib::lemma_flatten_concat(acc, seq![arr]);
    seq![arr].lemma_flatten_one_element();
    assert(acc.push(arr) =~= acc + seq![arr]);
}

proof fn lemma_split_rest(ret: Seq<Seq<Seq<u8>>>, rest: Seq<u8>, size: int)
    ensures
        flatten_groups(split_rest(ret, rest, size).0) + split_rest(ret, rest, size).1.flatten() == flatten_groups(ret)
            + rest,
        size > 0 ==> split_rest(ret, rest, size).1.flatten().len() <= size,
        groups_full(ret, size) ==> groups_full(split_rest(ret, rest, size).0, size),
    decreases rest.len(),
{
    if size <= 0 || rest.len() <= size {
        seq![rest].lemma_flatten_one_element();
    } else {
        let g = seq![rest.take(size)];
        g.lemma_flatten_one_element();
        lemma_flatten_groups_push(ret, g);
        lemma_split_rest(ret.push(g), rest.skip(size), size);
        assert(rest.take(size) + rest.skip(size) =~= rest);
        assert(flatten_groups(ret) + rest.take(size) + rest.skip(size) =~= flatten_groups(ret) + rest);
        if groups_full(ret, size) {
            assert(groups_full(ret.push(g), size)) by {
                assert forall|i: int| 0 <= i < ret.push(g).len() implies (#[trigger] ret.push(g)[i]).flatten().len()
                    == size by {
                    if i < ret.len() {
                        assert(ret.push(g)[i] == ret[i]);
                    }
                }
            }
        }
    }
}

proof fn lemma_split_fold(parts: Seq<Seq<u8>>, size: int)
    ensures
        flatten_groups(split_fold(parts, size).0) + split_fold(parts, size).1.flatten() == parts.flatten(),
        size > 0 ==> split_fold(parts, size).1.flatten().len() <= size,
        groups_full(split_fold(parts, size).0, size),
    decreases parts.len(),
{
    if parts.len() > 0 {
        let (ret, acc) = split_fold(parts.drop_last(), size);
        lemma_split_fold(parts.drop_last(), size);
        let arr = parts.last();
        lemma_flatten_prefix(parts, parts.len() - 1);
        assert(parts.take(parts.len() - 1) =~= parts.drop_last());
        assert(parts.take(parts.len() as int) =~= parts);
        lemma_flatten_push(acc, arr);
        let pre = acc.flatten().len();
        if size <= 0 || pre + arr.len() <= size {
        } else {
            let stop = size - pre;
            let g = acc.push(arr.take(stop));
            lemma_flatten_push(acc, arr.take(stop));
            lemma_flatten_groups_push(ret, g);
            assert(groups_full(ret.push(g), size)) by {
                assert forall|i: int| 0 <= i < ret.push(g).len() implies (#[trigger] ret.push(g)[i]).flatten().len()
                    == size by {
                    if i < ret.len() {
                        assert(ret.push(g)[i] == ret[i]);
                    }
                }
            }
            lemma_split_rest(ret.push(g), arr.skip(stop), size);
            assert(arr.take(stop) + arr.skip(stop) =~= arr);
            assert(flatten_groups(ret) + acc.flatten() + arr.take(stop) + arr.skip(stop) =~= flatten_groups(ret)
                + acc.flatten() + arr);
        }
    }
}

/// Splitting a payload keeps every byte, in order, and cuts it into groups
/// of `size` bytes, the last of which holds at most `size` bytes (with
/// `size` 0, one group holds everything).
pub proof fn lemma_split_keeps_bytes(parts: Seq<Seq<u8>>, size: int)
    ensures
        flatten_groups(split_groups(parts, size)) == parts.flatten(),
        split_groups(parts, size).len() >= 1,
        forall|i: int|
            0 <= i < split_groups(parts, size).len() - 1 ==> (#[trigger] split_groups(parts, size)[i]).flatten().len()
                == size,
        size > 0 ==> split_groups(parts, size).last().flatten().len() <= size,
{
    lemma_split_fold(parts, size);
    let (ret, acc) = split_fold(parts, size);
    lemma_flatten_groups_push(ret, acc);
    let g = split_groups(parts, size);
    assert forall|i: int| 0 <= i < g.len() - 1 implies (#[trigger] g[i]).flatten().len() == size by {
        assert(g[i] == ret[i]);
    }
}

impl<'a> Payload<'a> {
    /// check payload is empty
    pub fn is_empty(&self) -> (r: bool)
        requires
            self@.flatten().len() <= usize::MAX,
        ensures
            r == (self@.flatten().len() == 0),
    {
        self.len() == 0
    }

    /// return total bytes count of payload
    pub fn len(&self) -> (r: usize)
        requires
            self@.flatten().len() <= usize::MAX,
        ensures
            r == self@.flatten().len(),
    {
        total_len(&self.0)
    }

    /// return payload iterator: it hands out every byte of every part, in
    /// order
    pub fn iter(&self) -> (r: PayloadIterator<'_>)
        requires
            self@.flatten().len() <= usize::MAX,
        ensures
            r.wf(),
            r.parts() == self@,
            r.position() == 0,
    {
        proof {
            assert(self@.take(0) =~= Seq::<Seq<u8>>::empty());
        }
        PayloadIterator { payload: self, array_idx: 0, offset: 0, idx: 0 }
    }

    /// split payload into smaller size: groups of `size` bytes in order,
    /// the last holding the rest (one group when `size` is 0)
    pub fn split_with(&self, size: usize) -> (r: Vec<Payload<'a>>)
        requires
            self@.flatten().len() <= usize::MAX,
        ensures
            r@.map_values(|p: Payload<'a>| p@) == split_groups(self@, size as int),
    {
        let ghost parts = self@;
        let mut ret: Vec<Payload<'a>> = Vec::new();
        let mut acc: Vec<&'a [u8]> = Vec::new();
        let mut i: usize = 0;
        while i < self.0.len()
            invariant
                i <= self.0@.len(),
                parts == self@,
                parts.flatten().len() <= usize::MAX,
                (ret@.map_values(|p: Payload<'a>| p@), acc@.map_values(|s: &'a [u8]| s@))
                    == split_fold(parts.take(i as int), size as int),
            decreases self.0@.len() - i,
        {
            let arr: &'a [u8] = self.0[i];
            proof {
                assert(parts.take(i + 1).drop_last() =~= parts.take(i as int));
                assert(parts[i as int] == arr@);
                lemma_split_fold(parts.take(i as int), size as int);
                lemma_flatten_prefix(parts, i as int);
                let (gr, ga) = split_fold(parts.take(i as int), size as int);
                assert(flatten_groups(gr).len() + ga.flatten().len() == parts.take(i as int).flatten().len());
            }
            let pre_len = total_len(&acc);
            let arr_len = arr.len();
            if size == 0 || pre_len + arr_len <= size {
                acc.push(arr);
                proof {
                    assert(acc@.map_values(|s: &'a [u8]| s@) =~= split_fold(parts.take(i + 1), size as int).1);
                }
            } else {
                let stop = size - pre_len;
                let (head, tail) = arr.split_at(stop);
                let ghost r0 = ret@.map_values(|p: Payload<'a>| p@);
                let ghost a0 = acc@.map_values(|s: &'a [u8]| s@);
                acc.push(head);
                assert(acc@.map_values(|s: &'a [u8]| s@) =~= a0.push(arr@.take(stop as int)));
                let group = Payload(acc);
                ret.push(group);
                assert(ret@.map_values(|p: Payload<'a>| p@) =~= r0.push(a0.push(arr@.take(stop as int))));
                assert(tail@ =~= arr@.skip(stop as int));
                let mut rest: &'a [u8] = tail;
                while rest.len() > size
                    invariant
                        size > 0,
                        split_rest(ret@.map_values(|p: Payload<'a>| p@), rest@, size as int) == split_fold(
                            parts.take(i + 1),
                            size as int,
                        ),
                    decreases rest@.len(),
                {
                    let ghost r1 = ret@.map_values(|p: Payload<'a>| p@);
                    let (h, t) = rest.split_at(size);
                    let mut g: Vec<&'a [u8]> = Vec::new();
                    g.push(h);
                    assert(g@.map_values(|s: &'a [u8]| s@) =~= seq![rest@.take(size as int)]);
                    ret.push(Payload(g));
                    assert(ret@.map_values(|p: Payload<'a>| p@) =~= r1.push(seq![rest@.take(size as int)]));
                    assert(t@ =~= rest@.skip(size as int));
                    rest = t;
                }
                acc = Vec::new();
                acc.push(rest);
                proof {
                    assert(acc@.map_values(|s: &'a [u8]| s@) =~= seq![rest@]);
                }
            }
            i += 1;
        }
        assert(parts.take(self.0@.len() as int) =~= parts);
        let last = Payload(acc);
        ret.push(last);
        assert(ret@.map_values(|p: Payload<'a>| p@) =~= split_groups(parts, size as int));
        ret
    }

    /// copy all bytes in payload to dest
    pub fn copy_to(&self, dest: &mut [u8])
        requires
            self@.flatten().len() <= old(dest)@.len(),
        ensures
            final(dest)@ == self@.flatten() + old(dest)@.skip(self@.flatten().len() as int),
    {
        let ghost parts = self@;
        let _n = dest.len();
        let mut offset: usize = 0;
        let mut i: usize = 0;
        while i < self.0.len()
            invariant
                i <= self.0@.len(),
                parts == self@,
                dest@.len() <= usize::MAX,
                parts.flatten().len() <= dest@.len(),
                dest@.len() == old(dest)@.len(),
                offset == parts.take(i as int).flatten().len(),
                dest@ == parts.take(i as int).flatten() + old(dest)@.skip(offset as int),
            decreases self.0@.len() - i,
        {
            proof {
                lemma_flatten_prefix(parts, i as int);
            }
            let arr = self.0[i];
            let mut j: usize = 0;
            while j < arr.len()
                invariant
                    i < parts.len(),
                    j <= arr@.len(),
                    arr@ == parts[i as int],
                    dest@.len() <= usize::MAX,
                    offset + arr@.len() <= dest@.len(),
                    dest@.len() == old(dest)@.len(),
                    dest@ == parts.take(i as int).flatten() + arr@.take(j as int) + old(dest)@.skip(offset + j),
                decreases arr@.len() - j,
            {
                dest[offset + j] = arr[j];
                proof {
                    assert(arr@.take(j + 1) =~= arr@.take(j as int).push(arr@[j as int]));
                }
                j += 1;
                assert(dest@ =~= parts.take(i as int).flatten() + arr@.take(j as int) + old(dest)@.skip(offset + j));
            }
            assert(arr@.take(arr@.len() as int) =~= arr@);
            offset += arr.len();
            i += 1;
            assert(dest@ =~= parts.take(i as int).flatten() + old(dest)@.skip(offset as int));
        }
        assert(parts.take(self.0@.len() as int) =~= parts);
    }

    /// like copy_to, but apply mask at the same time
    pub fn copy_with_key(&self, dest: &mut [u8], key: [u8; 4])
        requires
            self@.flatten().len() <= old(dest)@.len(),
        ensures
            final(dest)@ == crate::codec::masked(self@.flatten(), key) + old(dest)@.skip(self@.flatten().len() as int),
    {
        let ghost parts = self@;
        let ghost all = parts.flatten();
        let _n = dest.len();
        let mut offset: usize = 0;
        let mut i: usize = 0;
        while i < self.0.len()
            invariant
                dest@.len() <= usize::MAX,
                i <= self.0@.len(),
                parts == self@,
                all == parts.flatten(),
                all.len() <= dest@.len(),
                dest@.len() == old(dest)@.len(),
                offset == parts.take(i as int).flatten().len(),
                dest@ == masked(parts.take(i as int).flatten(), key) + old(dest)@.skip(offset as int),
            decreases self.0@.len() - i,
        {
            proof {
                lemma_flatten_prefix(parts, i as int);
            }
            let arr = self.0[i];
            let mut j: usize = 0;
            while j < arr.len()
                invariant
                    i < parts.len(),
                    j <= arr@.len(),
                    arr@ == parts[i as int],
                    dest@.len() <= usize::MAX,
                    offset + arr@.len() <= dest@.len(),
                    offset == parts.take(i as int).flatten().len(),
                    dest@.len() == old(dest)@.len(),
                    dest@ == masked(parts.take(i as int).flatten() + arr@.take(j as int), key)
                        + old(dest)@.skip(offset + j),
                decreases arr@.len() - j,
            {
                dest[offset + j] = arr[j] ^ key[(j + offset) % 4];
                j += 1;
                assert(dest@ =~= masked(parts.take(i as int).flatten() + arr@.take(j as int), key)
                    + old(dest)@.skip(offset + j));
            }
            assert(arr@.take(arr@.len() as int) =~= arr@);
            offset += arr.len();
            i += 1;
        }
        assert(parts.take(self.0@.len() as int) =~= parts);
    }
}

/// Iterator of payload
pub struct PayloadIterator<'a> {
    payload: &'a Payload<'a>,
    array_idx: usize,
    offset: usize,
    idx: usize,
}

impl<'a> PayloadIterator<'a> {
    /// the parts walked over
    pub closed spec fn parts(self) -> Seq<Seq<u8>> {
        self.payload@
    }

    /// how many bytes have been handed out
    pub closed spec fn position(self) -> int {
        self.idx as int
    }

    /// the part index and its start agree with the position
    pub closed spec fn wf(self) -> bool {
        let parts = self.payload@;
        &&& parts.flatten().len() <= usize::MAX
        &&& self.array_idx <= parts.len()
        &&& self.offset == parts.take(self.array_idx as int).flatten().len()
        &&& self.offset <= self.idx
        &&& self.array_idx < parts.len() ==> self.idx <= self.offset + parts[self.array_idx as int].len()
        &&& self.array_idx == parts.len() ==> self.idx == self.offset
    }

    /// the next byte of the payload, in order over all parts, or `None` once
    /// every byte has been handed out
    pub fn next(&mut self) -> (r: Option<&'a u8>)
        requires
            old(self).wf(),
        ensures
            final(self).wf(),
            final(self).parts() == old(self).parts(),
            ({
                let all = old(self).parts().flatten();
                let pos = old(self).position();
                if pos < all.len() {
                    &&& r matches Some(b) && *b == all[pos]
                    &&& final(self).position() == pos + 1
                } else {
                    &&& r is None
                    &&& final(self).position() == pos
                }
            }),
    {
        let ghost parts = self.payload@;
        let ghost all = parts.flatten();
        proof {
            vstd::seq_lib::lemma_flatten_concat(parts.take(self.array_idx as int), parts.skip(self.array_idx as int));
            assert(parts.take(self.array_idx as int) + parts.skip(self.array_idx as int) =~= parts);
        }
        while self.array_idx < self.payload.0.len()
            invariant
                self.wf(),
                self.payload@ == parts,
                old(self).parts() == parts,
                all == parts.flatten(),
                self.idx == old(self).idx,
                all == parts.take(self.array_idx as int).flatten() + parts.skip(self.array_idx as int).flatten(),
            decreases parts.len() - self.array_idx,
        {
            let arr: &'a [u8] = self.payload.0[self.array_idx];
            let k = self.idx - self.offset;
            proof {
                lemma_flatten_prefix(parts, self.array_idx as int);
                let sk = parts.skip(self.array_idx as int);
                assert(sk =~= seq![sk[0]] + sk.drop_first());
                vstd::seq_lib::lemma_flatten_concat(seq![sk[0]], sk.drop_first());
                seq![sk[0]].lemma_flatten_one_element();
                assert(sk.drop_first() =~= parts.skip(self.array_idx + 1));
            }
            if k < arr.len() {
                proof {
                    assert(all[self.idx as int] == arr@[k as int]);
                }
                self.idx = self.idx + 1;
                if self.idx >= arr.len() + self.offset {
                    self.array_idx = self.array_idx + 1;
                    self.offset = self.offset + arr.len();
                }
                return Some(&arr[k]);
            }
            self.array_idx = self.array_idx + 1;
            self.offset = self.offset + arr.len();
        }
        proof {
            assert(parts.take(parts.len() as int) =~= parts);
        }
        None
    }
}

/// a collection of mutable payload(vector of mutable u8 slice)
#[derive(Debug)]
pub struct PayloadMut<'a>(pub(crate) Vec<&'a mut [u8]>);

impl<'a> View for PayloadMut<'a> {
    type V = Seq<Seq<u8>>;

    closed spec fn view(&self) -> Seq<Seq<u8>> {
        self.0@.map_values(|s: &'a mut [u8]| s@)
    }
}

impl<'a> From<Vec<&'a mut [u8]>> for PayloadMut<'a> {
    fn from(data: Vec<&'a mut [u8]>) -> (r: Self) {
        Self(data)
    }
}

impl<'a> vstd::std_specs::convert::FromSpecImpl<Vec<&'a mut [u8]>> for PayloadMut<'a> {
    open spec fn obeys_from_spec() -> bool {
        true
    }

    closed spec fn from_spec(v: Vec<&'a mut [u8]>) -> PayloadMut<'a> {
        PayloadMut(v)
    }
}

/// A mutable payload made from parts holds those parts, in order.
pub proof fn lemma_payload_mut_from_parts<'a>(v: Vec<&'a mut [u8]>)
    ensures
        <PayloadMut<'a> as vstd::std_specs::convert::FromSpec<Vec<&'a mut [u8]>>>::from_spec(v)@
            == v@.map_values(|s: &'a mut [u8]| s@),
{
}

impl<'a> PayloadMut<'a> {
    /// return total bytes count of payloads
    pub fn len(&self) -> (r: usize)
        requires
            self@.flatten().len() <= usize::MAX,
        ensures
            r == self@.flatten().len(),
    {
        let ghost parts = self@;
        let mut total: usize = 0;
        let mut i: usize = 0;
        while i < self.0.len()
            invariant
                i <= self.0@.len(),
                parts == self@,
                parts.flatten().len() <= usize::MAX,
                total == parts.take(i as int).flatten().len(),
            decreases self.0@.len() - i,
        {
            proof {
                lemma_flatten_prefix(parts, i as int);
            }
            total = total + self.0[i].len();
            i += 1;
        }
        assert(parts.take(self.0@.len() as int) =~= parts);
        total
    }

    /// check payload is empty
    pub fn is_empty(&self) -> (r: bool)
        requires
            self@.flatten().len() <= usize::MAX,
        ensures
            r == (self@.flatten().len() == 0),
    {
        self.len() == 0
    }

    /// split payload into smaller size
    pub fn split_with(self, size: usize) -> (r: Vec<PayloadMut<'a>>)
        requires
            self@.flatten().len() <= usize::MAX,
        ensures
            r@.map_values(|p: PayloadMut<'a>| p@) == split_groups(self@, size as int),
    {
        let ghost parts = self@;
        let mut rest: Vec<&'a mut [u8]> = self.0;
        let mut ret: Vec<PayloadMut<'a>> = Vec::new();
        let mut acc: Vec<&'a mut [u8]> = Vec::new();
        let ghost mut i: int = 0;
        while rest.len() > 0
            invariant
                0 <= i <= parts.len(),
                rest@.map_values(|s: &'a mut [u8]| s@) == parts.skip(i),
                parts.flatten().len() <= usize::MAX,
                (ret@.map_values(|p: PayloadMut<'a>| p@), acc@.map_values(|s: &'a mut [u8]| s@))
                    == split_fold(parts.take(i), size as int),
            decreases rest@.len(),
        {
            assert(rest@.map_values(|s: &'a mut [u8]| s@).len() == rest@.len());
            assert(i < parts.len());
            let ghost rv = rest@;
            let arr: &'a mut [u8] = rest.remove(0);
            assert(rest@ =~= rv.skip(1));
            assert(arr == rv[0]);
            assert(rv.map_values(|s: &'a mut [u8]| s@)[0] == arr@);
            proof {
                assert(parts.skip(i)[0] == parts[i]);
                assert(parts.take(i + 1).drop_last() =~= parts.take(i));
                assert(parts[i] == arr@);
                lemma_split_fold(parts.take(i), size as int);
                lemma_flatten_prefix(parts, i);
                assert forall|j: int| 0 <= j < rest@.len() implies rest@.map_values(
                    |s: &'a mut [u8]| s@)[j] == #[trigger] parts.skip(i + 1)[j] by {
                    assert(rv.map_values(|s: &'a mut [u8]| s@)[j + 1] == parts.skip(i)[j + 1]);
                }
                assert(rest@.map_values(|s: &'a mut [u8]| s@) =~= parts.skip(i + 1));
            }
            let mut pre_len: usize = 0;
            let mut k: usize = 0;
            let ghost accv = acc@.map_values(|s: &'a mut [u8]| s@);
            while k < acc.len()
                invariant
                    accv == acc@.map_values(|s: &'a mut [u8]| s@),
                    accv.flatten().len() <= usize::MAX,
                    k <= acc@.len(),
                    pre_len == accv.take(k as int).flatten().len(),
                decreases acc@.len() - k,
            {
                proof {
                    lemma_flatten_prefix(accv, k as int);
                }
                pre_len = pre_len + acc[k].len();
                k += 1;
            }
            assert(accv.take(acc@.len() as int) =~= accv);
            let arr_len = arr.len();
            if size == 0 || pre_len + arr_len <= size {
                acc.push(arr);
                proof {
                    assert(acc@.map_values(|s: &'a mut [u8]| s@) =~= split_fold(parts.take(i + 1), size as int).1);
                }
            } else {
                let stop = size - pre_len;
                let ghost av = arr@;
                let (head, tail) = arr.split_at_mut(stop);
                let ghost r0 = ret@.map_values(|p: PayloadMut<'a>| p@);
                let ghost a0 = acc@.map_values(|s: &'a mut [u8]| s@);
                acc.push(head);
                assert(acc@.map_values(|s: &'a mut [u8]| s@) =~= a0.push(av.take(stop as int)));
                let group = PayloadMut(acc);
                assert(group@ == a0.push(av.take(stop as int)));
                ret.push(group);
                assert(ret@.map_values(|p: PayloadMut<'a>| p@) =~= r0.push(a0.push(av.take(stop as int))));
                assert(tail@ =~= av.skip(stop as int));
                let mut rest: &'a mut [u8] = tail;
                while rest.len() > size
                    invariant
                        size > 0,
                        split_rest(ret@.map_values(|p: PayloadMut<'a>| p@), rest@, size as int) == split_fold(
                            parts.take(i + 1),
                            size as int,
                        ),
                    decreases rest@.len(),
                {
                    let ghost r1 = ret@.map_values(|p: PayloadMut<'a>| p@);
                    let ghost rv = rest@;
                    let cur: &'a mut [u8] = rest;
                    let (h, t) = cur.split_at_mut(size);
                    let mut g: Vec<&'a mut [u8]> = Vec::new();
                    g.push(h);
                    assert(g@.map_values(|s: &'a mut [u8]| s@) =~= seq![rv.take(size as int)]);
                    ret.push(PayloadMut(g));
                    assert(ret@.map_values(|p: PayloadMut<'a>| p@) =~= r1.push(seq![rv.take(size as int)]));
                    assert(t@ =~= rv.skip(size as int));
                    rest = t;
                }
                let ghost rl = rest@;
                acc = Vec::new();
                acc.push(rest);
                proof {
                    assert(acc@.map_values(|s: &'a mut [u8]| s@) =~= seq![rl]);
                }
            }
            proof {
                i = i + 1;
            }
        }
        assert(parts.take(i) =~= parts);
        let last = PayloadMut(acc);
        ret.push(last);
        assert(ret@.map_values(|p: PayloadMut<'a>| p@) =~= split_groups(parts, size as int));
        ret
    }

    /// copy all bytes in payload to dest
    pub fn copy_to(&self, dest: &mut [u8])
        requires
            self@.flatten().len() <= old(dest)@.len(),
        ensures
            final(dest)@ == self@.flatten() + old(dest)@.skip(self@.flatten().len() as int),
    {
        let ghost parts = self@;
        let _n = dest.len();
        let mut offset: usize = 0;
        let mut i: usize = 0;
        while i < self.0.len()
            invariant
                i <= self.0@.len(),
                parts == self@,
                dest@.len() <= usize::MAX,
                parts.flatten().len() <= dest@.len(),
                dest@.len() == old(dest)@.len(),
                offset == parts.take(i as int).flatten().len(),
                dest@ == parts.take(i as int).flatten() + old(dest)@.skip(offset as int),
            decreases self.0@.len() - i,
        {
            proof {
                lemma_flatten_prefix(parts, i as int);
            }
            let arr: &[u8] = &*self.0[i];
            let mut j: usize = 0;
            while j < arr.len()
                invariant
                    i < parts.len(),
                    j <= arr@.len(),
                    arr@ == parts[i as int],
                    dest@.len() <= usize::MAX,
                    offset + arr@.len() <= dest@.len(),
                    dest@.len() == old(dest)@.len(),
                    dest@ == parts.take(i as int).flatten() + arr@.take(j as int) + old(dest)@.skip(offset + j),
                decreases arr@.len() - j,
            {
                dest[offset + j] = arr[j];
                proof {
                    assert(arr@.take(j + 1) =~= arr@.take(j as int).push(arr@[j as int]));
                }
                j += 1;
                assert(dest@ =~= parts.take(i as int).flatten() + arr@.take(j as int) + old(dest)@.skip(offset + j));
            }
            assert(arr@.take(arr@.len() as int) =~= arr@);
            offset += arr.len();
            i += 1;
            assert(dest@ =~= parts.take(i as int).flatten() + old(dest)@.skip(offset as int));
        }
        assert(parts.take(self.0@.len() as int) =~= parts);
    }

    /// apply the mask to the payload as a whole: byte `j` of the parts taken
    /// together is XOR-ed with the key byte at `j` modulo 4
    pub fn apply_mask(&mut self, mask: [u8; 4])
        ensures
            final(self)@.len() == old(self)@.len(),
            forall|j: int| 0 <= j < old(self)@.len() ==> (#[trigger] final(self)@[j]).len() == old(self)@[j].len(),
            final(self)@.flatten() == masked(old(self)@.flatten(), mask),
    {
        let ghost parts = old(self)@;
        let mut i: usize = 0;
        let n = self.0.len();
        let mut off: usize = 0;
        proof {
            assert(parts.take(0) =~= Seq::<Seq<u8>>::empty());
            assert(self@.take(0) =~= Seq::<Seq<u8>>::empty());
            assert(masked(Seq::<u8>::empty(), mask) =~= Seq::<u8>::empty());
        }
        while i < n
            invariant
                n == self.0@.len(),
                n == parts.len(),
                i <= n,
                off < 4,
                off == parts.take(i as int).flatten().len() % 4,
                self@.len() == n,
                forall|j: int| 0 <= j < n ==> (#[trigger] self@[j]).len() == parts[j].len(),
                forall|j: int| i <= j < n ==> self@[j] == parts[j],
                self@.take(i as int).flatten() == masked(parts.take(i as int).flatten(), mask),
            decreases n - i,
        {
            let ghost before = self@;
            let key: [u8; 4] = [mask[off], mask[(off + 1) % 4], mask[(off + 2) % 4], mask[(off + 3) % 4]];
            let part: &mut [u8] = &mut *self.0[i];
            let plen = part.len();
            apply_mask_fast32(part, key);
            proof {
                let a = parts.take(i as int).flatten();
                let p = parts[i as int];
                lemma_mask_split(a, p, mask, key);
                lemma_flatten_prefix(parts, i as int);
                assert(self@ =~= before.update(i as int, masked(p, key)));
                lemma_flatten_prefix(self@, i as int);
                assert(self@.take(i as int) =~= before.take(i as int));
                vstd::arithmetic::div_mod::lemma_add_mod_noop(a.len() as int, p.len() as int, 4);
            }
            off = (off + plen % 4) % 4;
            i += 1;
        }
        assert(parts.take(n as int) =~= parts);
        assert(self@.take(n as int) =~= self@);
    }
}

/// Masking two pieces in a row: the second piece is masked with the key
/// turned on by the length of the first.
proof fn lemma_mask_split(a: Seq<u8>, p: Seq<u8>, mask: [u8; 4], key: [u8; 4])
    requires
        forall|t: int| 0 <= t < 4 ==> #[trigger] key@[t] == mask@[(a.len() % 4 + t) % 4],
    ensures
        masked(a + p, mask) == masked(a, mask) + masked(p, key),
{
    assert forall|j: int| 0 <= j < (a + p).len() implies #[trigger] masked(a + p, mask)[j] == (masked(a, mask)
        + masked(p, key))[j] by {
        if j >= a.len() {
            let t = j - a.len();
            vstd::arithmetic::div_mod::lemma_add_mod_noop(a.len() as int, t, 4);
            assert(key@[t % 4] == mask@[(a.len() % 4 + t % 4) % 4]);
        }
    }
    assert(masked(a + p, mask) =~= masked(a, mask) + masked(p, key));
}

/// the leading fields of a frame header
#[derive(Debug, Clone, Copy, PartialEq, Eq, Structural)]
pub struct SimplifiedHeader {
    /// fin bit
    pub fin: bool,
    /// rsv1 bit
    pub rsv1: bool,
    /// rsv2 bit
    pub rsv2: bool,
    /// rsv3 bit
    pub rsv3: bool,
    /// opcode
    pub code: OpCode,
}

/// the leading fields of the header bytes `h`
pub open spec fn simplified_of(h: Seq<u8>) -> SimplifiedHeader {
    SimplifiedHeader {
        fin: h_fin(h),
        rsv1: h_rsv1(h),
        rsv2: h_rsv2(h),
        rsv3: h_rsv3(h),
        code: h_opcode(h),
    }
}

/// read the leading fields of a header held in a slice
pub fn simplified_header_of(h: &[u8]) -> (r: SimplifiedHeader)
    requires
        h@.len() >= 1,
    ensures
        r == simplified_of(h@),
{
    proof {
        lemma_bit_masks();
    }
    let code = match parse_opcode(h[0]) {
        Ok(code) => code,
        Err(_) => unreached(),
    };
    SimplifiedHeader {
        fin: get_bit(h, 0, 0),
        rsv1: get_bit(h, 0, 1),
        rsv2: get_bit(h, 0, 2),
        rsv3: get_bit(h, 0, 3),
        code,
    }
}

// ---------------------------------------------------------------------------
// Encoding a complete frame header (RFC 6455, 5.2).
// ---------------------------------------------------------------------------

/// the length code and extended length bytes of a header for `len`
pub open spec fn rfc_len_bytes(len: u64) -> Seq<u8> {
    if len <= 125 {
        Seq::empty()
    } else if len <= 65535 {
        seq![(len >> 8u64) as u8, len as u8]
    } else {
        be64_bytes(len)
    }
}

/// the header bytes of a frame: fin, rsv bits, opcode, mask bit, length and
/// masking key
pub open spec fn frame_header(
    fin: bool,
    rsv1: bool,
    rsv2: bool,
    rsv3: bool,
    mask: Option<Seq<u8>>,
    code: OpCode,
    len: u64,
) -> Seq<u8> {
    seq![
        first_byte(fin, rsv1, rsv2, rsv3, code),
        (if mask is Some { 0x80u8 } else { 0u8 }) | len_code(len),
    ] + rfc_len_bytes(len) + key_bytes(mask)
}

/// number of header bytes of a frame
pub open spec fn spec_header_len(mask: bool, len: u64) -> int {
    1 + (if mask { 4int } else { 0int }) + if len <= 125 {
        1int
    } else if len <= 65535 {
        3int
    } else {
        9int
    }
}

/// A frame header reads back every field it was written with, for every
/// payload length.
pub proof fn lemma_frame_header_roundtrip(
    fin: bool,
    rsv1: bool,
    rsv2: bool,
    rsv3: bool,
    mask: Option<Seq<u8>>,
    code: OpCode,
    len: u64,
)
    requires
        mask matches Some(k) ==> k.len() == 4,
    ensures
        ({
            let h = frame_header(fin, rsv1, rsv2, rsv3, mask, code, len);
            &&& h_wf(h)
            &&& h.len() == h_header_len(h)
            &&& h.len() == spec_header_len(mask is Some, len)
            &&& simplified_of(h) == SimplifiedHeader { fin, rsv1, rsv2, rsv3, code }
            &&& h_masked(h) == mask is Some
            &&& h_payload_len(h) == len
            &&& h_mask_key(h) == mask
        }),
{
    let h = frame_header(fin, rsv1, rsv2, rsv3, mask, code, len);
    if len <= 65535 {
        lemma_short_header_roundtrip(fin, rsv1, rsv2, rsv3, mask, code, len);
        assert(h =~= frame_header(fin, rsv1, rsv2, rsv3, mask, code, len));
    } else {
        lemma_first_byte(fin, rsv1, rsv2, rsv3, code);
        lemma_opcode_roundtrip(code);
        let m: u8 = if mask is Some { 0x80u8 } else { 0u8 };
        let b1 = m | 127u8;
        assert((b1 & 0x80 != 0) == (m == 0x80) && b1 & 0x7f == 127) by (bit_vector)
            requires
                m == 0x80 || m == 0,
                b1 == m | 127u8,
        ;
        assert(h[1] == b1);
        let bs = be64_bytes(len);
        assert(be64(h, 2) == len) by {
            assert(h[2] == bs[0] && h[3] == bs[1] && h[4] == bs[2] && h[5] == bs[3]);
            assert(h[6] == bs[4] && h[7] == bs[5] && h[8] == bs[6] && h[9] == bs[7]);
            lemma_be64_roundtrip(len);
        }
        if let Some(k) = mask {
            assert(h.subrange(1 + h_len_occupied(h), 5 + h_len_occupied(h)) =~= k);
        }
    }
}

/// Eight big-endian bytes give back the value they were taken from.
pub proof fn lemma_be64_roundtrip(v: u64)
    ensures
        be64(be64_bytes(v), 0) == v,
{
    let b0 = (v >> 56u64) as u8;
    let b1 = (v >> 48u64) as u8;
    let b2 = (v >> 40u64) as u8;
    let b3 = (v >> 32u64) as u8;
    let b4 = (v >> 24u64) as u8;
    let b5 = (v >> 16u64) as u8;
    let b6 = (v >> 8u64) as u8;
    let b7 = v as u8;
    assert(((b0 as u64) << 56u64) | ((b1 as u64) << 48u64) | ((b2 as u64) << 40u64) | ((b3 as u64)
        << 32u64) | ((b4 as u64) << 24u64) | ((b5 as u64) << 16u64) | ((b6 as u64) << 8u64) | (b7 as u64)
        == v) by (bit_vector)
        requires
            b0 == (v >> 56u64) as u8,
            b1 == (v >> 48u64) as u8,
            b2 == (v >> 40u64) as u8,
            b3 == (v >> 32u64) as u8,
            b4 == (v >> 24u64) as u8,
            b5 == (v >> 16u64) as u8,
            b6 == (v >> 8u64) as u8,
            b7 == v as u8,
    ;
}

/// number of header bytes of a frame
pub fn header_len(mask: bool, payload_len: u64) -> (r: usize)
    ensures
        r == spec_header_len(mask, payload_len),
{
    let mut header_len: usize = 1;
    if mask {
        header_len += 4;
    }
    if payload_len <= 125 {
        header_len += 1;
    } else if payload_len <= 65535 {
        header_len += 3;
    } else {
        header_len += 9;
    }
    header_len
}

/// append the length byte (with mask bit `m`) and the extended length
fn push_len(out: &mut Vec<u8>, m: u8, payload_len: u64)
    ensures
        final(out)@ == old(out)@ + seq![m | len_code(payload_len)] + rfc_len_bytes(payload_len),
{
    if payload_len <= 125 {
        out.push(m | (payload_len as u8));
        assert(out@ =~= old(out)@ + seq![m | len_code(payload_len)] + rfc_len_bytes(payload_len));
    } else if payload_len <= 65535 {
        out.push(m | 126u8);
        out.push((payload_len >> 8u64) as u8);
        out.push(payload_len as u8);
        assert(out@ =~= old(out)@ + seq![m | len_code(payload_len)] + rfc_len_bytes(payload_len));
    } else {
        out.push(m | 127u8);
        out.push((payload_len >> 56u64) as u8);
        out.push((payload_len >> 48u64) as u8);
        out.push((payload_len >> 40u64) as u8);
        out.push((payload_len >> 32u64) as u8);
        out.push((payload_len >> 24u64) as u8);
        out.push((payload_len >> 16u64) as u8);
        out.push((payload_len >> 8u64) as u8);
        out.push(payload_len as u8);
        assert(out@ =~= old(out)@ + seq![m | len_code(payload_len)] + rfc_len_bytes(payload_len));
    }
}

/// append the header of a frame to `out`
pub fn ctor_header(
    out: &mut Vec<u8>,
    fin: bool,
    rsv1: bool,
    rsv2: bool,
    rsv3: bool,
    mask: Option<[u8; 4]>,
    opcode: OpCode,
    payload_len: u64,
)
    ensures
        final(out)@ == old(out)@ + frame_header(fin, rsv1, rsv2, rsv3, opt_key(mask), opcode, payload_len),
{
    let b0 = (if fin { 0x80u8 } else { 0u8 }) | (if rsv1 { 0x40u8 } else { 0u8 }) | (if rsv2 {
        0x20u8
    } else {
        0u8
    }) | (if rsv3 { 0x10u8 } else { 0u8 }) | opcode.as_u8();
    out.push(b0);
    let ghost o1 = out@;
    let m: u8 = if mask.is_some() { 0x80u8 } else { 0u8 };
    push_len(out, m, payload_len);
    let ghost o2 = out@;
    if let Some(k) = mask {
        out.push(k[0]);
        out.push(k[1]);
        out.push(k[2]);
        out.push(k[3]);
        assert(out@ =~= o2 + k@);
    }
    assert(out@ =~= old(out)@ + frame_header(fin, rsv1, rsv2, rsv3, opt_key(mask), opcode, payload_len));
}

} // verus!

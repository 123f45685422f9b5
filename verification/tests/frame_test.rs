use ws_tool::codec::apply_mask;
use ws_tool::codec::apply_mask_fast32;
use ws_tool::codec::frame::FrameWriteState;
use ws_tool::frame::{
    ctor_header, get_bit, header_len, parse_opcode, set_bit, simplified_header_of, Header, OpCode,
    OwnedFrame, Payload, PayloadMut, SimplifiedHeader,
};

fn wire(frame: &OwnedFrame) -> Vec<u8> {
    let mut w = FrameWriteState::default();
    w.send_owned_frame(frame)
}

#[test]
fn opcode_values() {
    assert_eq!(OpCode::Continue.as_u8(), 0);
    assert_eq!(OpCode::Text.as_u8(), 1);
    assert_eq!(OpCode::Binary.as_u8(), 2);
    assert_eq!(OpCode::Close.as_u8(), 8);
    assert_eq!(OpCode::Ping.as_u8(), 9);
    assert_eq!(OpCode::Pong.as_u8(), 10);
    assert!(OpCode::Close.is_close());
    assert!(!OpCode::Ping.is_close());
    assert!(OpCode::Continue.is_data());
    assert!(OpCode::Text.is_data());
    assert!(!OpCode::Pong.is_data());
    assert_eq!(OpCode::default(), OpCode::Text);
}

#[test]
fn parse_opcode_reads_low_nibble() {
    assert_eq!(parse_opcode(0x81), Ok(OpCode::Text));
    assert_eq!(parse_opcode(0x02), Ok(OpCode::Binary));
    assert_eq!(parse_opcode(0x05), Ok(OpCode::ReservedNonControl));
    assert_eq!(parse_opcode(0x8a), Ok(OpCode::Pong));
    assert_eq!(parse_opcode(0x0f), Ok(OpCode::ReservedControl));
}

#[test]
fn opcode_roundtrip_on_every_code() {
    for code in [
        OpCode::Continue,
        OpCode::Text,
        OpCode::Binary,
        OpCode::Close,
        OpCode::Ping,
        OpCode::Pong,
    ] {
        assert_eq!(parse_opcode(code.as_u8()), Ok(code));
    }
}

#[test]
fn bits_are_read_from_the_top() {
    let mut b = [0b1000_0001u8, 0u8];
    assert!(get_bit(&b, 0, 0));
    assert!(!get_bit(&b, 0, 1));
    assert!(get_bit(&b, 0, 7));
    set_bit(&mut b, 1, 0, true);
    assert_eq!(b[1], 0x80);
    set_bit(&mut b, 0, 0, false);
    assert_eq!(b[0], 0x01);
}

#[test]
fn mask_known_value() {
    // RFC 6455, 5.7: "Hello" masked with 37 fa 21 3d
    let mut data = *b"Hello";
    apply_mask(&mut data, [0x37, 0xfa, 0x21, 0x3d]);
    assert_eq!(data, [0x7f, 0x9f, 0x4d, 0x51, 0x58]);
    apply_mask(&mut data, [0x37, 0xfa, 0x21, 0x3d]);
    assert_eq!(&data, b"Hello");
}

#[test]
fn mask_fast_agrees_with_plain() {
    let key = [1u8, 2, 3, 4];
    let orig: Vec<u8> = (0u8..23).collect();
    let mut a = orig.clone();
    let mut b = orig.clone();
    apply_mask(&mut a, key);
    apply_mask_fast32(&mut b, key);
    assert_eq!(a, b);
    assert_eq!(a[5], 5 ^ 2);
}

#[test]
fn header_new_fields() {
    let h = Header::new(true, false, true, false, Some([1, 2, 3, 4]), OpCode::Binary, 300);
    assert!(h.fin());
    assert!(!h.rsv1());
    assert!(h.rsv2());
    assert!(!h.rsv3());
    assert_eq!(h.opcode(), OpCode::Binary);
    assert!(h.masked());
    assert_eq!(h.payload_len(), 300);
    assert_eq!(h.masking_key(), Some([1, 2, 3, 4]));
    assert_eq!(h.payload_idx(), (8, 308));
}

#[test]
fn header_setters() {
    let mut h = Header::new(false, false, false, false, None, OpCode::Text, 200);
    h.set_fin(true);
    h.set_rsv1(true);
    h.set_opcode(OpCode::Ping);
    assert!(h.fin());
    assert!(h.rsv1());
    assert_eq!(h.opcode(), OpCode::Ping);
    assert_eq!(h.payload_len(), 200);
    h.set_payload_len(1000);
    assert_eq!(h.payload_len(), 1000);
    h.set_payload_len(7);
    assert_eq!(h.payload_len(), 7);
}

#[test]
fn header_len_by_size() {
    assert_eq!(header_len(false, 0), 2);
    assert_eq!(header_len(true, 125), 6);
    assert_eq!(header_len(false, 126), 4);
    assert_eq!(header_len(true, 65535), 8);
    assert_eq!(header_len(false, 65536), 10);
    assert_eq!(header_len(true, 70000), 14);
}

#[test]
fn ctor_header_bytes() {
    let mut out = Vec::new();
    ctor_header(&mut out, true, false, false, false, None, OpCode::Text, 5);
    assert_eq!(out, vec![0x81, 0x05]);
    let mut out = Vec::new();
    ctor_header(&mut out, false, false, false, false, Some([9, 8, 7, 6]), OpCode::Binary, 300);
    assert_eq!(out, vec![0x02, 0xfe, 0x01, 0x2c, 9, 8, 7, 6]);
    let mut out = Vec::new();
    ctor_header(&mut out, true, false, false, false, None, OpCode::Binary, 65536);
    assert_eq!(out, vec![0x82, 0x7f, 0, 0, 0, 0, 0, 1, 0, 0]);
}

#[test]
fn simplified_header_reads_first_byte() {
    let h = simplified_header_of(&[0xc9, 0x00]);
    assert_eq!(
        h,
        SimplifiedHeader { fin: true, rsv1: true, rsv2: false, rsv3: false, code: OpCode::Ping }
    );
}

#[test]
fn text_frame_wire_bytes() {
    let f = OwnedFrame::text_frame(None, "Hello");
    assert_eq!(wire(&f), vec![0x81, 0x05, b'H', b'e', b'l', b'l', b'o']);
    let f = OwnedFrame::text_frame(Some([0x37, 0xfa, 0x21, 0x3d]), "Hello");
    assert_eq!(
        wire(&f),
        vec![0x81, 0x85, 0x37, 0xfa, 0x21, 0x3d, 0x7f, 0x9f, 0x4d, 0x51, 0x58]
    );
}

#[test]
fn close_frame_body() {
    let f = OwnedFrame::close_frame(None, Some(1000), b"bye");
    assert_eq!(wire(&f), vec![0x88, 0x05, 0x03, 0xe8, b'b', b'y', b'e']);
    let f = OwnedFrame::close_frame(None, None, b"");
    assert_eq!(wire(&f), vec![0x88, 0x00]);
}

#[test]
fn ping_pong_frames() {
    assert_eq!(wire(&OwnedFrame::ping_frame(None, b"a")), vec![0x89, 0x01, b'a']);
    assert_eq!(wire(&OwnedFrame::pong_frame(None, b"a")), vec![0x8a, 0x01, b'a']);
    assert_eq!(wire(&OwnedFrame::binary_frame(None, &[7])), vec![0x82, 0x01, 7]);
}

#[test]
fn unmask_then_mask() {
    let mut f = OwnedFrame::binary_frame(Some([1, 2, 3, 4]), &[10, 20, 30]);
    let key = f.unmask();
    assert_eq!(key, Some([1, 2, 3, 4]));
    assert_eq!(wire(&f), vec![0x82, 0x03, 10, 20, 30]);
    f.mask([1, 2, 3, 4]);
    assert_eq!(wire(&f), vec![0x82, 0x83, 1, 2, 3, 4, 11, 22, 29]);
}

#[test]
fn extend_updates_length() {
    let mut f = OwnedFrame::binary_frame(None, &[1, 2]);
    f.extend_from_slice(&[3]);
    assert_eq!(f.header().payload_len(), 3);
    assert_eq!(&f.payload()[..], &[1, 2, 3]);
}

#[test]
fn payload_len_and_copy() {
    let a: &[u8] = &[1, 2, 3];
    let b: &[u8] = &[4, 5];
    let p = Payload::from(vec![a, b]);
    assert_eq!(p.len(), 5);
    assert!(!p.is_empty());
    let mut dest = [0u8; 5];
    p.copy_to(&mut dest);
    assert_eq!(dest, [1, 2, 3, 4, 5]);
    let mut dest2 = [0u8; 5];
    p.copy_with_key(&mut dest2, [1, 1, 1, 1]);
    assert_eq!(dest2, [0, 3, 2, 5, 4]);
}

#[test]
fn payload_split_keeps_bytes() {
    let a: &[u8] = &[1, 2, 3];
    let b: &[u8] = &[4, 5];
    let p = Payload::from(vec![a, b]);
    let parts = p.split_with(2);
    let mut all = Vec::new();
    for part in parts.iter() {
        let mut d = vec![0u8; part.len()];
        part.copy_to(&mut d);
        all.extend_from_slice(&d);
    }
    assert_eq!(all, vec![1, 2, 3, 4, 5]);
    let sizes: Vec<usize> = parts.iter().map(|p| p.len()).collect();
    assert_eq!(sizes, vec![2, 2, 1]);
}

fn flat(p: &Payload) -> Vec<u8> {
    let mut d = vec![0u8; p.len()];
    p.copy_to(&mut d);
    d
}

#[test]
fn payload_split_cuts_at_size() {
    let a: &[u8] = &[1, 2, 3];
    let p = Payload::from(vec![a]);
    let parts = p.split_with(2);
    assert_eq!(parts.len(), 2);
    assert_eq!(flat(&parts[0]), vec![1, 2]);
    assert_eq!(flat(&parts[1]), vec![3]);
    let long: &[u8] = &[1, 2, 3, 4, 5, 6, 7];
    let parts = Payload::from(vec![long]).split_with(3);
    let got: Vec<Vec<u8>> = parts.iter().map(flat).collect();
    assert_eq!(got, vec![vec![1, 2, 3], vec![4, 5, 6], vec![7]]);
    assert_eq!(Payload::from(vec![long]).split_with(0).len(), 1);
}

#[test]
fn payload_mut_split_cuts_at_size() {
    let mut buf = [1u8, 2, 3];
    let p = PayloadMut::from(vec![&mut buf[..]]);
    let parts = p.split_with(2);
    assert_eq!(parts.len(), 2);
    assert_eq!(parts[0].len(), 2);
    assert_eq!(parts[1].len(), 1);
    let mut d = [0u8; 2];
    parts[0].copy_to(&mut d);
    assert_eq!(d, [1, 2]);
}

#[test]
fn payload_mut_masks_across_parts() {
    let mut a = [0u8; 3];
    let mut b = [0u8; 2];
    {
        let mut p = PayloadMut::from(vec![&mut a[..], &mut b[..]]);
        p.apply_mask([1, 2, 3, 4]);
    }
    assert_eq!(a, [1, 2, 3]);
    assert_eq!(b, [4, 1]);
}

#[test]
fn payload_iter_yields_every_byte() {
    let a: &[u8] = &[1, 2, 3];
    let e: &[u8] = &[];
    let b: &[u8] = &[4];
    let p = Payload::from(vec![a, e, b]);
    let mut it = p.iter();
    let mut got = Vec::new();
    while let Some(x) = it.next() {
        got.push(*x);
    }
    assert_eq!(got, vec![1, 2, 3, 4]);
    assert!(it.next().is_none());
}

#[test]
fn long_header_holds_eight_length_bytes() {
    let h = Header::new(true, false, false, false, None, OpCode::Binary, 70000);
    assert_eq!(h.payload_len(), 70000);
    assert_eq!(h.masking_key(), None);
    let mut h = Header::new(true, false, false, false, None, OpCode::Binary, 0);
    assert_eq!(h.set_payload_len(200), 3);
    assert_eq!(h.payload_len(), 200);
    assert_eq!(h.set_payload_len(70000), 9);
    assert_eq!(h.payload_len(), 70000);
    let mut h = Header::new(true, false, false, false, Some([1, 2, 3, 4]), OpCode::Text, 3);
    h.set_payload_len(300);
    assert_eq!(h.masking_key(), Some([1, 2, 3, 4]));
    assert_eq!(h.payload_len(), 300);
}

#[test]
fn extend_grows_past_short_lengths() {
    let mut f = OwnedFrame::binary_frame(Some([1, 2, 3, 4]), &[0; 100]);
    f.extend_from_slice(&[0; 100]);
    assert_eq!(f.header().payload_len(), 200);
    assert_eq!(f.header().masking_key(), Some([1, 2, 3, 4]));
    let (h, p) = f.parts();
    assert_eq!(h.payload_len(), 200);
    assert_eq!(&p[..], &[0u8; 200][..]);
}

#[test]
fn empty_payload() {
    let p = Payload::from(Vec::<&[u8]>::new());
    assert!(p.is_empty());
    assert_eq!(p.len(), 0);
}

#[test]
fn new_masked_frame_unmasks_back() {
    let data = [5u8, 6, 7, 8, 9];
    let mut f = OwnedFrame::new(OpCode::Binary, Some([1, 2, 3, 4]), &data);
    assert_eq!(&f.payload()[..], &[4, 4, 4, 12, 8]);
    assert_eq!(f.unmask(), Some([1, 2, 3, 4]));
    assert_eq!(&f.payload()[..], &data);
    assert!(!f.header().masked());
    assert_eq!(f.header().masking_key(), None);
    assert_eq!(f.header().payload_len(), 5);
    assert_eq!(f.unmask(), None);
    assert_eq!(&f.payload()[..], &data);
}

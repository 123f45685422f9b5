use ws_tool::codec::deflate_stream::{compressed_frame_with, DeflateReadState, DeflateStep, DeflateWriteState};
use ws_tool::codec::frame::{
    encode_send, FrameConfig, FrameEncoder, FrameNewReadState, FrameReadState, FrameWriteState, ReadStep,
    ValidateUtf8Policy,
};
use ws_tool::codec::deflate::PMDConfig;
use ws_tool::errors::{ProtocolError, WsError};
use ws_tool::frame::{OpCode, OwnedFrame, SimplifiedHeader};

fn feed(state: &mut FrameReadState, data: &[u8]) {
    assert!(state.can_prepare(data.len()));
    let buf = state.prepare_read(data.len());
    buf.copy_from_slice(data);
    state.produce(data.len());
}

fn step(state: &mut FrameReadState) -> Result<ReadStep, WsError> {
    assert!(state.frame_len_ok());
    state.receive_step()
}

fn message(r: Result<ReadStep, WsError>) -> (SimplifiedHeader, Vec<u8>) {
    match r {
        Ok(ReadStep::Message(h, v)) => (h, v),
        other => panic!("expected a message, got {:?}", other),
    }
}

fn proto_err(r: Result<ReadStep, WsError>) -> (u16, ProtocolError) {
    match r {
        Err(WsError::ProtocolError { close_code, error }) => (close_code, error),
        other => panic!("expected a protocol error, got {:?}", other),
    }
}

fn plain_config() -> FrameConfig {
    FrameConfig { mask_send_frame: false, ..FrameConfig::default() }
}

#[test]
fn default_config_values() {
    let c = FrameConfig::default();
    assert!(c.check_rsv);
    assert!(c.mask_send_frame);
    assert!(!c.renew_buf_on_write);
    assert!(c.auto_unmask);
    assert_eq!(c.max_frame_payload_size, 0);
    assert_eq!(c.auto_fragment_size, 0);
    assert!(c.merge_frame);
    assert_eq!(c.validate_utf8, ValidateUtf8Policy::FastFail);
    assert_eq!(c.resize_size, 4096);
    assert_eq!(c.resize_thresh, 1024);
    assert!(ValidateUtf8Policy::On.should_check());
    assert!(!ValidateUtf8Policy::Off.should_check());
    assert!(ValidateUtf8Policy::FastFail.is_fast_fail());
    assert!(!ValidateUtf8Policy::On.is_fast_fail());
}

#[test]
fn read_masked_hello() {
    let mut s = FrameReadState::default();
    feed(&mut s, &[0x81, 0x85, 0x37, 0xfa, 0x21, 0x3d, 0x7f, 0x9f, 0x4d, 0x51, 0x58]);
    let (h, v) = message(step(&mut s));
    assert_eq!(h.code, OpCode::Text);
    assert!(h.fin);
    assert_eq!(v, b"Hello".to_vec());
    assert_eq!(s.available_len(), 0);
}

#[test]
fn read_asks_for_more() {
    let mut s = FrameReadState::default();
    match step(&mut s) {
        Ok(ReadStep::Poll(n)) => assert_eq!(n, 4096),
        other => panic!("{:?}", other),
    }
    feed(&mut s, &[0x81, 0x05, b'H']);
    match step(&mut s) {
        Ok(ReadStep::Fill(n)) => assert_eq!(n, 4),
        other => panic!("{:?}", other),
    }
    feed(&mut s, b"ello");
    let (_, v) = message(step(&mut s));
    assert_eq!(v, b"Hello".to_vec());
}

#[test]
fn read_fragmented_message() {
    let mut s = FrameReadState::default();
    feed(&mut s, &[0x01, 0x03, b'H', b'e', b'l', 0x80, 0x02, b'l', b'o']);
    match step(&mut s) {
        Ok(ReadStep::Fragment) => {}
        other => panic!("{:?}", other),
    }
    let (h, v) = message(step(&mut s));
    assert_eq!(h.code, OpCode::Text);
    assert_eq!(v, b"Hello".to_vec());
}

#[test]
fn read_without_merge_hands_out_fragments() {
    let mut s = FrameReadState::with_config(FrameConfig { merge_frame: false, ..FrameConfig::default() });
    feed(&mut s, &[0x02, 0x01, 7, 0x80, 0x01, 8]);
    let (h, v) = message(step(&mut s));
    assert_eq!((h.code, h.fin, v), (OpCode::Binary, false, vec![7]));
    let (h, v) = message(step(&mut s));
    assert_eq!((h.code, h.fin, v), (OpCode::Continue, true, vec![8]));
}

#[test]
fn continue_without_start_is_refused() {
    let mut s = FrameReadState::default();
    feed(&mut s, &[0x80, 0x00]);
    assert_eq!(proto_err(step(&mut s)), (1002, ProtocolError::MissInitialFragmentedFrame));
}

#[test]
fn data_frame_inside_fragments_is_refused() {
    let mut s = FrameReadState::default();
    feed(&mut s, &[0x02, 0x00, 0x82, 0x00]);
    match step(&mut s) {
        Ok(ReadStep::Fragment) => {}
        other => panic!("{:?}", other),
    }
    assert_eq!(proto_err(step(&mut s)), (1002, ProtocolError::NotContinueFrameAfterFragmented));
}

#[test]
fn control_frame_rules() {
    let mut s = FrameReadState::default();
    feed(&mut s, &[0x09, 0x00]);
    assert_eq!(proto_err(step(&mut s)), (1002, ProtocolError::FragmentedControlFrame));

    let mut s = FrameReadState::default();
    let mut big = vec![0x89, 126, 0, 126];
    big.extend_from_slice(&[0u8; 126]);
    feed(&mut s, &big);
    assert_eq!(proto_err(step(&mut s)), (1002, ProtocolError::ControlFrameTooBig(126)));
}

#[test]
fn close_frame_rules() {
    let mut s = FrameReadState::default();
    feed(&mut s, &[0x88, 0x01, 0x03]);
    assert_eq!(proto_err(step(&mut s)), (1002, ProtocolError::InvalidCloseFramePayload));

    let mut s = FrameReadState::default();
    feed(&mut s, &[0x88, 0x02, 0x03, 0xed]);
    assert_eq!(proto_err(step(&mut s)), (1002, ProtocolError::InvalidCloseCode(1005)));

    let mut s = FrameReadState::default();
    feed(&mut s, &[0x88, 0x03, 0x03, 0xe8, 0xff]);
    assert_eq!(proto_err(step(&mut s)), (1007, ProtocolError::InvalidUtf8));

    let mut s = FrameReadState::default();
    feed(&mut s, &[0x88, 0x02, 0x03, 0xe8]);
    let (h, v) = message(step(&mut s));
    assert_eq!((h.code, v), (OpCode::Close, vec![0x03, 0xe8]));
}

#[test]
fn invalid_utf8_text_is_refused() {
    let mut s = FrameReadState::default();
    feed(&mut s, &[0x81, 0x02, 0xc3, 0x28]);
    assert_eq!(proto_err(step(&mut s)), (1007, ProtocolError::InvalidUtf8));

    let mut s = FrameReadState::with_config(FrameConfig { validate_utf8: ValidateUtf8Policy::Off, ..FrameConfig::default() });
    feed(&mut s, &[0x81, 0x02, 0xc3, 0x28]);
    let (_, v) = message(step(&mut s));
    assert_eq!(v, vec![0xc3, 0x28]);
}

#[test]
fn rsv_bits_and_size_limits() {
    let mut s = FrameReadState::default();
    feed(&mut s, &[0xc1, 0x00]);
    assert_eq!(proto_err(step(&mut s)), (1008, ProtocolError::InvalidLeadingBits(12)));

    let mut s = FrameReadState::with_config(FrameConfig { max_frame_payload_size: 3, ..FrameConfig::default() });
    feed(&mut s, &[0x82, 0x04, 1, 2, 3, 4]);
    assert_eq!(proto_err(step(&mut s)), (1008, ProtocolError::PayloadTooLarge(3)));
}

#[test]
fn reserved_opcode_is_unsupported() {
    let mut s = FrameReadState::default();
    feed(&mut s, &[0x83, 0x00]);
    match step(&mut s) {
        Err(WsError::UnsupportedFrame(code)) => assert_eq!(code, OpCode::ReservedNonControl),
        other => panic!("{:?}", other),
    }
}

#[test]
fn parse_header_lengths() {
    let mut s = FrameReadState::default();
    feed(&mut s, &[0x82, 0xfe, 0x01, 0x00, 1, 2, 3, 4]);
    assert!(s.is_header_ok());
    assert_eq!(s.get_leading_bits(), 8);
    assert_eq!(s.parse_frame_header(), Ok((8, 256, 264)));
}

#[test]
fn send_unmasked_single_frame() {
    let mut w = FrameWriteState::with_config(plain_config());
    assert_eq!(w.send(OpCode::Binary, &[1, 2, 3]), vec![0x82, 0x03, 1, 2, 3]);
    assert_eq!(w.send(OpCode::Text, &[]), vec![0x81, 0x00]);
}

#[test]
fn send_fragments_at_the_configured_size() {
    let mut w = FrameWriteState::with_config(FrameConfig { auto_fragment_size: 2, ..plain_config() });
    assert_eq!(
        w.send(OpCode::Binary, &[1, 2, 3, 4, 5]),
        vec![0x02, 0x02, 1, 2, 0x00, 0x02, 3, 4, 0x80, 0x01, 5]
    );
    assert_eq!(
        FrameWriteState::with_config(FrameConfig { auto_fragment_size: 2, ..plain_config() })
            .send(OpCode::Text, b"abc"),
        vec![0x01, 0x02, 0x61, 0x62, 0x80, 0x01, 0x63]
    );
}

#[test]
fn fragmented_send_reads_back() {
    let mut w = FrameWriteState::with_config(FrameConfig { auto_fragment_size: 3, ..FrameConfig::default() });
    let payload = "héllo wörld".as_bytes().to_vec();
    let bytes = w.send(OpCode::Text, &payload);
    let mut r = FrameReadState::default();
    feed(&mut r, &bytes);
    loop {
        match step(&mut r) {
            Ok(ReadStep::Fragment) => continue,
            Ok(ReadStep::Message(h, v)) => {
                assert_eq!(h.code, OpCode::Text);
                assert!(h.fin);
                assert_eq!(v, payload);
                break;
            }
            other => panic!("{:?}", other),
        }
    }
}

#[test]
fn merged_text_is_checked_under_on() {
    let cfg = FrameConfig { validate_utf8: ValidateUtf8Policy::On, ..FrameConfig::default() };
    let mut r = FrameReadState::with_config(cfg);
    feed(&mut r, &[0x01, 0x01, 0xC3, 0x80, 0x01, 0x28]);
    assert!(matches!(step(&mut r), Ok(ReadStep::Fragment)));
    assert_eq!(proto_err(step(&mut r)), (1007, ProtocolError::InvalidUtf8));
    let mut r = FrameReadState::with_config(cfg);
    feed(&mut r, &[0x01, 0x01, 0xC3, 0x80, 0x01, 0xA9]);
    assert!(matches!(step(&mut r), Ok(ReadStep::Fragment)));
    let (h, v) = message(step(&mut r));
    assert_eq!(h.code, OpCode::Text);
    assert_eq!(v, vec![0xC3, 0xA9]);
}

#[test]
fn encode_with_given_keys() {
    let c = FrameConfig::default();
    let bytes = encode_send(&c, OpCode::Text, b"Hello", &[[0x37, 0xfa, 0x21, 0x3d]]);
    assert_eq!(bytes, vec![0x81, 0x85, 0x37, 0xfa, 0x21, 0x3d, 0x7f, 0x9f, 0x4d, 0x51, 0x58]);
}

#[test]
fn masked_send_reads_back() {
    let mut w = FrameWriteState::default();
    let payload: Vec<u8> = (0..300u32).map(|i| (i % 251) as u8).collect();
    let bytes = w.send(OpCode::Binary, &payload);
    assert_eq!(bytes.len(), 8 + 300);
    assert_eq!(bytes[1] & 0x80, 0x80);
    let mut r = FrameReadState::default();
    feed(&mut r, &bytes);
    let (h, v) = message(step(&mut r));
    assert_eq!(h.code, OpCode::Binary);
    assert_eq!(v, payload);
}

#[test]
fn send_owned_frame_writes_as_is() {
    let mut w = FrameWriteState::default();
    let f = OwnedFrame::binary_frame(None, &[9]);
    assert_eq!(w.send_owned_frame(&f), vec![0x82, 0x01, 9]);
}

#[test]
fn frame_encoder_appends() {
    let mut e = FrameEncoder::default();
    let mut dst = bytes::BytesMut::new();
    let f = OwnedFrame::binary_frame(None, &[1]);
    assert!(e.encode(&f, &mut dst).is_ok());
    assert!(e.encode(&f, &mut dst).is_ok());
    assert_eq!(&dst[..], &[0x82, 0x01, 1, 0x82, 0x01, 1]);
}

#[test]
fn new_read_state_receive() {
    let mut s = FrameNewReadState::default();
    let mut out = Vec::new();
    let frame = [0x81, 0x85, 0x37, 0xfa, 0x21, 0x3d, 0x7f, 0x9f, 0x4d, 0x51, 0x58];
    assert_eq!(s.receive(&frame, &mut out), Ok((5, OpCode::Text)));
    assert_eq!(out, b"Hello".to_vec());
    assert_eq!(FrameNewReadState::bytes_needed(&[]), 2);
    assert_eq!(FrameNewReadState::bytes_needed(&[0x81, 0xfe]), 8);
    assert_eq!(FrameNewReadState::bytes_needed(&frame), 11);
}

#[test]
fn new_read_state_short_input() {
    let mut s = FrameNewReadState::default();
    let mut out = Vec::new();
    assert_eq!(
        s.receive(&[0x81], &mut out),
        Err(WsError::IOError("failed to fill whole buffer".to_string()))
    );
    assert_eq!(
        s.receive(&[0x82, 0x03, 1], &mut out),
        Err(WsError::IOError("writer cap is not enough".to_string()))
    );
    assert_eq!(out, vec![1]);
    let mut out = Vec::new();
    assert_eq!(
        s.receive(&[0x82, 0x83, 1, 2, 3, 4, 5], &mut out),
        Err(WsError::IOError("failed to fill whole buffer".to_string()))
    );
    assert!(out.is_empty());
}

#[test]
fn deflate_reader_asks_for_decompression() {
    let pmd = PMDConfig::default();
    let mut d = DeflateReadState::with_config(FrameConfig::default(), Some(pmd), false);
    let h = SimplifiedHeader { fin: true, rsv1: true, rsv2: false, rsv3: false, code: OpCode::Text };
    match d.take_frame(h, vec![1, 2]) {
        Ok(DeflateStep::Decompress(h2, v)) => {
            assert_eq!(h2, h);
            assert_eq!(v, vec![1, 2, 0, 0, 255, 255]);
        }
        other => panic!("{:?}", other),
    }
    match d.accept_decompressed(h, Ok(b"hi".to_vec())) {
        Ok(DeflateStep::Message(h3, v)) => {
            assert_eq!(h3.code, OpCode::Text);
            assert!(!h3.rsv1);
            assert_eq!(v, b"hi".to_vec());
        }
        other => panic!("{:?}", other),
    }
    match d.accept_decompressed(h, Err("-3".to_string())) {
        Err(WsError::DeCompressFailed(m)) => assert_eq!(m, "-3"),
        other => panic!("{:?}", other),
    }
}

#[test]
fn deflate_reader_refusals() {
    let mut d = DeflateReadState::with_config(FrameConfig::default(), None, true);
    let ping = SimplifiedHeader { fin: true, rsv1: true, rsv2: false, rsv3: false, code: OpCode::Ping };
    match d.take_frame(ping, vec![]) {
        Err(WsError::ProtocolError { close_code, error }) => {
            assert_eq!((close_code, error), (1002, ProtocolError::CompressedControlFrame))
        }
        other => panic!("{:?}", other),
    }
    let text = SimplifiedHeader { fin: true, rsv1: true, rsv2: false, rsv3: false, code: OpCode::Text };
    match d.take_frame(text, vec![]) {
        Err(WsError::DeCompressFailed(m)) => assert_eq!(m, "extension not enabled but got compressed frame"),
        other => panic!("{:?}", other),
    }
}

#[test]
fn deflate_reader_merges_fragments() {
    let mut d = DeflateReadState::with_config(FrameConfig::default(), None, true);
    let first = SimplifiedHeader { fin: false, rsv1: false, rsv2: false, rsv3: false, code: OpCode::Binary };
    let last = SimplifiedHeader { fin: true, rsv1: false, rsv2: false, rsv3: false, code: OpCode::Continue };
    assert!(matches!(d.take_frame(first, vec![1]), Ok(DeflateStep::Fragment)));
    match d.take_frame(last, vec![2]) {
        Ok(DeflateStep::Message(h, v)) => {
            assert_eq!(h.code, OpCode::Binary);
            assert_eq!(v, vec![1, 2]);
        }
        other => panic!("{:?}", other),
    }
}

#[test]
fn deflate_fragments_continue() {
    let cfg = FrameConfig { mask_send_frame: false, auto_fragment_size: 2, ..FrameConfig::default() };
    let w = DeflateWriteState::with_config(cfg, None, false);
    let chunks = w.send_chunks(&[1, 2, 3, 4, 5]);
    assert_eq!(chunks, vec![&[1u8, 2][..], &[3u8, 4][..], &[5u8][..]]);
    // first frame: opcode and rsv1; later ones: continuation, no rsv1; last: fin
    assert_eq!(w.compressed_frame(0, 3, OpCode::Text, &[7, 0, 0, 255, 255]), vec![0x41, 0x01, 7]);
    assert_eq!(w.compressed_frame(1, 3, OpCode::Text, &[8, 0, 0, 255, 255]), vec![0x00, 0x01, 8]);
    assert_eq!(w.compressed_frame(2, 3, OpCode::Text, &[9, 0, 0, 255, 255]), vec![0x80, 0x01, 9]);
    assert_eq!(w.plain_frame(1, 2, OpCode::Binary, &[1]), vec![0x80, 0x01, 1]);
    assert_eq!(w.send_chunks(&[]).len(), 1);
}

#[test]
fn deflate_writer_frames() {
    let out = compressed_frame_with(true, true, OpCode::Text, None, &[5, 6, 0, 0, 255, 255]);
    assert_eq!(out, vec![0xc1, 0x02, 5, 6]);
    let w = DeflateWriteState::with_config(FrameConfig { mask_send_frame: false, ..FrameConfig::default() }, None, false);
    assert_eq!(w.plain_frame(0, 1, OpCode::Binary, &[1]), vec![0x82, 0x01, 1]);
    assert_eq!(w.chunk_size(10), 10);
    assert_eq!(w.compressor_window(), None);
    assert!(!w.resets_compressor());
    let pmd = PMDConfig { client_no_context_takeover: true, ..PMDConfig::default() };
    let w = DeflateWriteState::with_config(FrameConfig::default(), Some(pmd), false);
    assert!(w.resets_compressor());
    assert!(w.compressor_window().is_some());
}

#[test]
fn read_buffer_grows_for_large_frames() {
    let mut frame = vec![0x82, 0x7e, 0x13, 0x88];
    frame.extend((0..5000u32).map(|i| (i % 7) as u8));
    let mut r = FrameReadState::default();
    feed(&mut r, &frame[..3000]);
    match step(&mut r) {
        Ok(ReadStep::Fill(n)) => assert_eq!(n, frame.len() - 3000),
        other => panic!("{:?}", other),
    }
    feed(&mut r, &frame[3000..]);
    let (h, v) = message(step(&mut r));
    assert_eq!(h.code, OpCode::Binary);
    assert_eq!(v, frame[4..].to_vec());
}

#[test]
fn deflate_reader_checks_merged_text() {
    let cfg = FrameConfig { validate_utf8: ValidateUtf8Policy::On, ..FrameConfig::default() };
    let mut d = DeflateReadState::with_config(cfg, None, true);
    let first = SimplifiedHeader { fin: false, rsv1: false, rsv2: false, rsv3: false, code: OpCode::Text };
    let last = SimplifiedHeader { fin: true, rsv1: false, rsv2: false, rsv3: false, code: OpCode::Continue };
    assert!(matches!(d.take_frame(first, vec![0xC3]), Ok(DeflateStep::Fragment)));
    match d.take_frame(last, vec![0x28]) {
        Err(WsError::ProtocolError { close_code, error }) => {
            assert_eq!((close_code, error), (1007, ProtocolError::InvalidUtf8))
        }
        other => panic!("{:?}", other),
    }
}

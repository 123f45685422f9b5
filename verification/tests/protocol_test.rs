use ws_tool::connector::{get_host, get_scheme};
use ws_tool::errors::WsError;
use ws_tool::frame::OpCode;
use ws_tool::protocol::{
    cal_accept_key, default_handshake_handler, gen_key, handle_parse_handshake, perform_parse_req,
    prepare_handshake, response_outcome, response_text, standard_handshake_req_check,
    standard_handshake_resp_check, HandshakeResponse, HttpRequest, HttpResponse, Mode, StatusCode,
};
use ws_tool::proxy::{parse_proxy_schema, ProxySchema};
use ws_tool::{ClientBuilder, Message, StrMessage};
use ws_tool::message::{binary_message, message_payload, text_message};
use ws_tool::errors::ProtocolError;

fn header(name: &str, value: &str) -> (String, Vec<u8>) {
    (name.to_string(), value.as_bytes().to_vec())
}

fn failure(r: Result<(), WsError>) -> String {
    match r {
        Err(WsError::HandShakeFailed(m)) => m,
        other => panic!("{:?}", other),
    }
}

#[test]
fn status_codes() {
    assert_eq!(StatusCode::normal(), 1000);
    assert_eq!(StatusCode::going_away(), 1001);
    assert_eq!(StatusCode::protocol_error(), 1002);
    assert_eq!(StatusCode::terminate(), 1003);
    assert_eq!(StatusCode::reserved(), 1004);
    assert_eq!(StatusCode::app_reserved(), 1005);
    assert_eq!(StatusCode::abnormal_reserved(), 1006);
    assert_eq!(StatusCode::non_consistent(), 1007);
    assert_eq!(StatusCode::violate_policy(), 1008);
    assert_eq!(StatusCode::too_big(), 1009);
    assert_eq!(StatusCode::require_ext(), 1010);
    assert_eq!(StatusCode::unexpected_condition(), 1011);
    assert_eq!(StatusCode::platform_fail(), 1015);
}

#[test]
fn mode_ports() {
    assert_eq!(Mode::WS.default_port(), 80);
    assert_eq!(Mode::WSS.default_port(), 443);
}

#[test]
fn accept_key_of_rfc_sample() {
    assert_eq!(cal_accept_key(b"dGhlIHNhbXBsZSBub25jZQ=="), "s3pPLMBiTxaQ9kYGzzhZRbK+xOo=");
}

#[test]
fn generated_keys_are_base64_of_sixteen_bytes() {
    let k = gen_key();
    assert_eq!(k.len(), 24);
    assert!(k.ends_with("=="));
    assert_ne!(gen_key(), gen_key());
}

#[test]
fn response_check() {
    let key = b"dGhlIHNhbXBsZSBub25jZQ==";
    let ok = HttpResponse { status: 101, version: 1, headers: vec![header("Sec-WebSocket-Accept", "s3pPLMBiTxaQ9kYGzzhZRbK+xOo=")] };
    assert_eq!(standard_handshake_resp_check(key, &ok), Ok(()));
    let bad_status = HttpResponse { status: 200, version: 1, headers: vec![] };
    assert_eq!(failure(standard_handshake_resp_check(key, &bad_status)), "expect 101 response, got 200 OK");
    let missing = HttpResponse { status: 101, version: 1, headers: vec![] };
    assert_eq!(failure(standard_handshake_resp_check(key, &missing)), "missing `sec-websocket-accept` header");
    let wrong = HttpResponse { status: 101, version: 1, headers: vec![header("sec-websocket-accept", "x")] };
    assert_eq!(failure(standard_handshake_resp_check(key, &wrong)), "mismatch key");
}

#[test]
fn request_check() {
    let good = HttpRequest {
        method: "GET".to_string(),
        path: "/".to_string(),
        version: 1,
        headers: vec![header("Upgrade", "websocket"), header("Sec-WebSocket-Key", "abc")],
    };
    assert_eq!(standard_handshake_req_check(&good), Ok(()));
    let no_upgrade = HttpRequest { headers: vec![], ..good_clone(&good) };
    assert_eq!(failure(standard_handshake_req_check(&no_upgrade)), "missing `upgrade` header");
    let wrong = HttpRequest { headers: vec![header("upgrade", "WebSocket")], ..good_clone(&good) };
    assert_eq!(failure(standard_handshake_req_check(&wrong)), "expect `websocket`, got \"WebSocket\"");
    let no_key = HttpRequest { headers: vec![header("upgrade", "websocket")], ..good_clone(&good) };
    assert_eq!(failure(standard_handshake_req_check(&no_key)), "missing `sec-websocket-key` header");
    let empty_key =
        HttpRequest { headers: vec![header("upgrade", "websocket"), header("sec-websocket-key", "")], ..good_clone(&good) };
    assert_eq!(failure(standard_handshake_req_check(&empty_key)), "empty sec-websocket-key");
}

fn good_clone(r: &HttpRequest) -> HttpRequest {
    HttpRequest { method: r.method.clone(), path: r.path.clone(), version: r.version, headers: r.headers.clone() }
}

#[test]
fn default_handler_answers() {
    let req = HttpRequest {
        method: "GET".to_string(),
        path: "/chat".to_string(),
        version: 1,
        headers: vec![header("upgrade", "websocket"), header("sec-websocket-key", "dGhlIHNhbXBsZSBub25jZQ==")],
    };
    let (_, resp) = default_handshake_handler(req).unwrap();
    assert_eq!(resp.status, 101);
    assert_eq!(
        resp.headers,
        vec![
            ("upgrade".to_string(), "WebSocket".to_string()),
            ("connection".to_string(), "Upgrade".to_string()),
            ("sec-websocket-accept".to_string(), "s3pPLMBiTxaQ9kYGzzhZRbK+xOo=".to_string()),
        ]
    );
    assert_eq!(response_outcome(&resp), Ok(()));
    assert_eq!(
        response_text(&resp),
        "HTTP/1.1 101 Switching Protocols\r\nupgrade: WebSocket\r\nconnection: Upgrade\r\nsec-websocket-accept: s3pPLMBiTxaQ9kYGzzhZRbK+xOo=\r\n\r\n"
    );
}

#[test]
fn default_handler_refuses() {
    let req = HttpRequest { method: "GET".to_string(), path: "/".to_string(), version: 1, headers: vec![] };
    let (_, resp) = default_handshake_handler(req).unwrap();
    assert_eq!(resp.status, 400);
    assert_eq!(resp.body, "missing `upgrade` header");
    assert_eq!(response_outcome(&resp), Err(WsError::HandShakeFailed("missing `upgrade` header".to_string())));
}

#[test]
fn handshake_request_text() {
    let (key, text) = prepare_handshake(
        &["chat".to_string()],
        &[],
        &[("X-A".to_string(), "1".to_string())],
        "example.com",
        Some(8080),
        "/ws?a=1",
        13,
    );
    assert_eq!(key.len(), 24);
    let expected = format!(
        "GET /ws?a=1 HTTP/1.1\r\nHost: example.com:8080\r\nUpgrade: websocket\r\nConnection: Upgrade\r\nSec-Websocket-Key: {key}\r\nSec-WebSocket-Version: 13\r\nSec-WebSocket-Protocol: chat\r\nX-A: 1\r\n\r\n"
    );
    assert_eq!(text, expected);
}

#[test]
fn client_builder_request() {
    let b = ClientBuilder::new()
        .protocol("a".to_string())
        .extension("permessage-deflate".to_string())
        .version(8)
        .header("X".to_string(), "1".to_string())
        .header("X".to_string(), "2".to_string());
    let (key, text) = b.handshake_request("h", None, "/");
    let expected = format!(
        "GET / HTTP/1.1\r\nHost: h\r\nUpgrade: websocket\r\nConnection: Upgrade\r\nSec-Websocket-Key: {key}\r\nSec-WebSocket-Version: 8\r\nSec-WebSocket-Protocol: a\r\nSec-WebSocket-Extensions: permessage-deflate\r\nX: 2\r\n\r\n"
    );
    assert_eq!(text, expected);
    let b = b.protocols(vec![]).extensions(vec![]).headers(vec![]);
    let (key, text) = b.handshake_request("h", None, "/");
    assert_eq!(
        text,
        format!("GET / HTTP/1.1\r\nHost: h\r\nUpgrade: websocket\r\nConnection: Upgrade\r\nSec-Websocket-Key: {key}\r\nSec-WebSocket-Version: 8\r\n\r\n")
    );
}

#[test]
fn parse_response_head() {
    let bytes = b"HTTP/1.1 101 Switching Protocols\r\nUpgrade: websocket\r\nSec-WebSocket-Accept: abc\r\n\r\n";
    let (key, resp) = perform_parse_req(bytes, "k".to_string()).unwrap();
    assert_eq!(key, "k");
    assert_eq!(resp.status, 101);
    assert_eq!(resp.version, 1);
    assert_eq!(resp.headers, vec![header("Upgrade", "websocket"), header("Sec-WebSocket-Accept", "abc")]);
    match perform_parse_req(b"HTTP/1.1 1x1\r\n\r\n", "k".to_string()) {
        Err(WsError::HandShakeFailed(m)) => assert_eq!(m, "invalid response"),
        other => panic!("{:?}", other.map(|(k, _)| k)),
    }
}

#[test]
fn parse_request_head() {
    let bytes = b"GET /chat HTTP/1.0\r\nHost: a\r\n\r\n";
    let req = handle_parse_handshake(bytes).unwrap();
    assert_eq!(req.method, "GET");
    assert_eq!(req.path, "/chat");
    assert_eq!(req.version, 0);
    assert_eq!(req.headers, vec![header("Host", "a")]);
    match handle_parse_handshake(b"GET\x01 / HTTP/1.1\r\n\r\n") {
        Err(WsError::HandShakeFailed(m)) => assert_eq!(m, "invalid request"),
        Err(e) => panic!("{:?}", e),
        Ok(_) => panic!("expected a failure"),
    }
    // a head cut off before its path: httparse reads a method, the request
    // builder refuses the empty path
    match handle_parse_handshake(b"GET ") {
        Err(WsError::HandShakeFailed(m)) => assert!(m != "invalid request"),
        Err(e) => panic!("{:?}", e),
        Ok(_) => panic!("expected a failure"),
    }
}

#[test]
fn status_shown_for_unknown_codes() {
    let key = b"dGhlIHNhbXBsZSBub25jZQ==";
    let resp = HttpResponse { status: 42, version: 1, headers: vec![] };
    match standard_handshake_resp_check(key, &resp) {
        Err(WsError::HandShakeFailed(m)) => assert_eq!(m, "expect 101 response, got 42"),
        other => panic!("{:?}", other),
    }
    let resp = HttpResponse { status: 200, version: 1, headers: vec![] };
    match standard_handshake_resp_check(key, &resp) {
        Err(WsError::HandShakeFailed(m)) => assert_eq!(m, "expect 101 response, got 200 OK"),
        other => panic!("{:?}", other),
    }
    assert_eq!(cal_accept_key(key).len(), 28);
    assert_eq!(gen_key().len(), 24);
}

#[test]
fn schemes_and_hosts() {
    assert_eq!(get_scheme(Some("WS")), Ok(Mode::WS));
    assert_eq!(get_scheme(Some("wss")), Ok(Mode::WSS));
    assert_eq!(get_scheme(None), Ok(Mode::WS));
    assert_eq!(get_scheme(Some("http")), Err(WsError::InvalidUri("unknown scheme http".to_string())));
    assert_eq!(get_host(Some("a.b"), "ws://a.b"), Ok("a.b"));
    assert_eq!(get_host(None, "/x"), Err(WsError::InvalidUri("can not find host /x".to_string())));
}

#[test]
fn proxy_schemes() {
    assert_eq!(parse_proxy_schema("SOCKS5"), Ok(ProxySchema::Socks5));
    assert_eq!(parse_proxy_schema("http"), Ok(ProxySchema::Http));
    assert_eq!(parse_proxy_schema("Https"), Err(WsError::UnsupportedProxy("https".to_string())));
}

#[test]
fn messages() {
    let m = Message { code: OpCode::Binary, data: vec![1u8], close_code: None };
    assert_eq!(m.into(), vec![1u8]);
    let s = StrMessage::from((OpCode::Close, "bye".to_string()));
    assert_eq!(s.close_code, Some(1000));
    let s = StrMessage::from((OpCode::Text, "hi".to_string()));
    assert_eq!(s.close_code, None);
    let s = StrMessage::from((1001u16, "away".to_string()));
    assert_eq!((s.code, s.close_code, s.data.as_str()), (OpCode::Close, Some(1001), "away"));
    let s = StrMessage::from("x".to_string());
    assert_eq!((s.code, s.close_code), (OpCode::Text, None));
}

#[test]
fn server_response_text_for_refusal() {
    let resp = HandshakeResponse { status: 400, headers: vec![("content-type".to_string(), "text/html".to_string())], body: String::new() };
    assert_eq!(response_text(&resp), "HTTP/1.1 400 Bad Request\r\ncontent-type: text/html\r\n\r\n");
}

#[test]
fn text_and_binary_messages() {
    let m = text_message(OpCode::Close, &[0x03, 0xe8, b'o', b'k'], true).unwrap();
    assert_eq!((m.code, m.close_code, m.data.as_str()), (OpCode::Close, Some(1000), "ok"));
    let m = text_message(OpCode::Text, b"hi", true).unwrap();
    assert_eq!((m.close_code, m.data.as_str()), (None, "hi"));
    assert_eq!(
        text_message(OpCode::Text, &[0xff], true).err(),
        Some(WsError::ProtocolError { close_code: 1001, error: ProtocolError::InvalidUtf8 })
    );
    let m = text_message(OpCode::Text, &[b'a', 0xff], false).unwrap();
    assert_eq!(m.data, "a\u{fffd}");
    let m = binary_message(OpCode::Close, &[0x03, 0xe9, 7]);
    assert_eq!((m.close_code, m.data), (Some(1001), vec![7]));
    let m = binary_message(OpCode::Binary, &[1, 2]);
    assert_eq!((m.close_code, m.data), (None, vec![1, 2]));
    assert_eq!(message_payload(OpCode::Close, Some(1000), b"x"), vec![0x03, 0xe8, b'x']);
    assert_eq!(message_payload(OpCode::Text, Some(1000), b"x"), vec![b'x']);
    assert_eq!(message_payload(OpCode::Binary, None, b"y"), vec![b'y']);
}

#[test]
fn protocol_error_texts() {
    assert_eq!(ProtocolError::InsufficientLen(3).message(), "insufficient data len 3");
    assert_eq!(ProtocolError::InvalidLeadingBits(12).message(), "invalid leading bits 1100");
    assert_eq!(ProtocolError::MisMatchDataLen(4, 10).message(), "mismatch data len, expect 4, got 10");
    assert_eq!(ProtocolError::InvalidCloseCode(1005).message(), "invalid close code 1005");
    assert_eq!(ProtocolError::FragmentedControlFrame.message(), "fragmented control frame ");
    assert_eq!(ProtocolError::PayloadTooLarge(0).message(), "payload too large, max payload size 0");
}

#[test]
fn borrowed_messages() {
    let m: Message<&str> = Message::from("hi");
    assert_eq!(m.code, OpCode::Text);
    assert_eq!(m.data, "hi");
    assert_eq!(m.close_code, None);
    let b: &[u8] = &[1, 2];
    let m: Message<&[u8]> = Message::from(b);
    assert_eq!(m.code, OpCode::Binary);
    let m: Message<&str> = Message::from((1000u16, "bye"));
    assert_eq!(m.code, OpCode::Close);
    assert_eq!(m.close_code, Some(1000));
    let m: Message<&[u8]> = Message::from((1000u16, b));
    assert_eq!(m.code, OpCode::Close);
    assert_eq!(m.close_code, Some(1000));
    let m: Message<&str> = Message::from((OpCode::Ping, "p"));
    assert_eq!(m.code, OpCode::Ping);
    assert_eq!(m.close_code, None);
}

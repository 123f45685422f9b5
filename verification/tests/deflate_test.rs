use ws_tool::codec::deflate::{client_pmd_config, deflate_handshake_handler, server_pmd_config, PMDConfig, PMGConfig, WindowBit};
use ws_tool::errors::WsError;
use ws_tool::protocol::{HttpRequest, HttpResponse};

fn header(name: &str, value: &str) -> (String, Vec<u8>) {
    (name.to_string(), value.as_bytes().to_vec())
}

fn request(headers: Vec<(String, Vec<u8>)>) -> HttpRequest {
    HttpRequest { method: "GET".to_string(), path: "/".to_string(), version: 1, headers }
}

#[test]
fn window_bits() {
    assert_eq!(WindowBit::Eight.as_u8(), 8);
    assert_eq!(WindowBit::Fifteen.as_u8(), 15);
    assert_eq!(WindowBit::try_from_u8(12), Ok(WindowBit::Twelve));
    assert_eq!(WindowBit::try_from_u8(7), Err(7));
    assert_eq!(WindowBit::try_from_u8(16), Err(16));
}

#[test]
fn default_ext_string() {
    assert_eq!(
        PMDConfig::default().ext_string(),
        "permessage-deflate;client_max_window_bits=15;server_max_window_bits=15"
    );
    assert_eq!(
        PMGConfig::default().ext_string(),
        "permessage-deflate;client_no_context_takeover; server_no_context_takeover; client_max_window_bits=15;server_max_window_bits=15"
    );
}

#[test]
fn multi_ext_string_joins() {
    let a = PMDConfig::default();
    let b = PMDConfig { server_max_window_bits: WindowBit::Nine, ..PMDConfig::default() };
    assert_eq!(
        PMDConfig::multi_ext_string(&[a, b]),
        "permessage-deflate;client_max_window_bits=15;server_max_window_bits=15, permessage-deflate;client_max_window_bits=15;server_max_window_bits=9"
    );
    assert_eq!(PMDConfig::multi_ext_string(&[]), "");
    assert_eq!(PMGConfig::multi_ext_string(&[]), "");
}

#[test]
fn parse_back_ext_string() {
    let c = PMDConfig {
        server_no_context_takeover: true,
        client_no_context_takeover: false,
        server_max_window_bits: WindowBit::Ten,
        client_max_window_bits: WindowBit::Twelve,
    };
    assert_eq!(PMDConfig::parse_str(&c.ext_string()), Ok(vec![c]));
    let d = PMDConfig::default();
    assert_eq!(PMDConfig::parse_str(&PMDConfig::multi_ext_string(&[c, d])), Ok(vec![c, d]));
}

#[test]
fn parse_case_insensitive() {
    let r = PMDConfig::parse_str("PerMessage-Deflate; Client_No_Context_Takeover; SERVER_max_window_bits=10").unwrap();
    assert_eq!(r.len(), 1);
    assert!(r[0].client_no_context_takeover);
    assert_eq!(r[0].server_max_window_bits, WindowBit::Ten);
    assert_eq!(
        PMDConfig::parse_str("permessage-deflate; server_max_window_bits = 10"),
        Err("invalid param value invalid digit found in string".to_string())
    );
}

#[test]
fn parse_skips_other_extensions() {
    assert_eq!(PMDConfig::parse_str("x-webkit-deflate-frame"), Ok(vec![]));
    assert_eq!(PMDConfig::parse_str(""), Ok(vec![]));
    let r = PMDConfig::parse_str("foo, permessage-deflate").unwrap();
    assert_eq!(r, vec![PMDConfig::default()]);
}

#[test]
fn parse_errors() {
    assert_eq!(
        PMDConfig::parse_str("permessage-deflate\r\na\r\nb"),
        Err("should not contain multi line".to_string())
    );
    assert_eq!(PMDConfig::parse_str("permessage-deflate; foo"), Err("unknown param  foo".to_string()));
    assert_eq!(
        PMDConfig::parse_str("permessage-deflate; server_no_context_takeover; server_no_context_takeover"),
        Err("got multiple server_no_context_takeover params".to_string())
    );
    assert_eq!(
        PMDConfig::parse_str("permessage-deflate; client_no_context_takeover=1"),
        Err("client_no_context_takeover does not expect param".to_string())
    );
    assert_eq!(
        PMDConfig::parse_str("permessage-deflate; server_max_window_bits=16"),
        Err("invalid param value 16".to_string())
    );
    assert_eq!(
        PMDConfig::parse_str("permessage-deflate; server_max_window_bits=x"),
        Err("invalid param value invalid digit found in string".to_string())
    );
    assert_eq!(
        PMDConfig::parse_str("permessage-deflate; server_max_window_bits=="),
        Err("invalid param value cannot parse integer from empty string".to_string())
    );
    assert_eq!(
        PMDConfig::parse_str("permessage-deflate; server_max_window_bits=300"),
        Err("invalid param value number too large to fit in target type".to_string())
    );
    assert_eq!(
        PMDConfig::parse_str("permessage-deflate; client_max_window_bits 9"),
        Err("invalid param value".to_string())
    );
}

#[test]
fn client_window_bits_duplicate_rejected() {
    assert_eq!(
        PMDConfig::parse_str("permessage-deflate; client_max_window_bits=9; client_max_window_bits=10"),
        Err("got multiple client_max_window_bits params".to_string())
    );
    let r = PMDConfig::parse_str("permessage-deflate; server_max_window_bits=10; client_max_window_bits=12").unwrap();
    assert_eq!(r[0].server_max_window_bits, WindowBit::Ten);
    assert_eq!(r[0].client_max_window_bits, WindowBit::Twelve);
}

#[test]
fn window_bits_without_value() {
    let r = PMDConfig::parse_str("permessage-deflate; client_max_window_bits").unwrap();
    assert_eq!(r, vec![PMDConfig::default()]);
    let r = PMDConfig::parse_str("permessage-deflate; server_max_window_bits=+8").unwrap();
    assert_eq!(r[0].server_max_window_bits, WindowBit::Eight);
}

#[test]
fn deflate_handler_accepts_last_offer() {
    let req = request(vec![
        header("upgrade", "websocket"),
        header("sec-websocket-key", "dGhlIHNhbXBsZSBub25jZQ=="),
        header("Sec-WebSocket-Extensions", "permessage-deflate; server_max_window_bits=10, permessage-deflate"),
    ]);
    let (_, resp) = deflate_handshake_handler(req).unwrap();
    assert_eq!(resp.status, 101);
    let last = resp.headers.last().unwrap();
    assert_eq!(last.0, "sec-websocket-extensions");
    assert_eq!(last.1, PMDConfig::default().ext_string());
}

#[test]
fn deflate_handler_reports_parse_failure() {
    let req = request(vec![
        header("upgrade", "websocket"),
        header("sec-websocket-key", "abc"),
        header("sec-websocket-extensions", "permessage-deflate; bogus"),
    ]);
    match deflate_handshake_handler(req) {
        Err(WsError::HandShakeFailed(m)) => assert_eq!(m, "unknown param  bogus"),
        Err(e) => panic!("{:?}", e),
        Ok(_) => panic!("expected a failure"),
    }
}

#[test]
fn server_config_takes_smaller_window() {
    let headers = vec![(
        "Sec-WebSocket-Extensions".to_string(),
        b"permessage-deflate; server_max_window_bits=10; client_max_window_bits=12".to_vec(),
    )];
    let c = server_pmd_config(&headers).unwrap().unwrap();
    assert_eq!(c.server_max_window_bits, WindowBit::Ten);
    assert_eq!(c.client_max_window_bits, WindowBit::Ten);
    assert_eq!(server_pmd_config(&vec![]).unwrap(), None);
}

#[test]
fn client_config_checks_the_response_first() {
    let key = b"dGhlIHNhbXBsZSBub25jZQ==";
    let resp = HttpResponse { status: 200, version: 1, headers: vec![] };
    assert!(matches!(client_pmd_config(key, &resp), Err(WsError::HandShakeFailed(_))));
    let resp = HttpResponse {
        status: 101,
        version: 1,
        headers: vec![
            header("Sec-WebSocket-Accept", "s3pPLMBiTxaQ9kYGzzhZRbK+xOo="),
            header("Sec-WebSocket-Extensions", "permessage-deflate; client_max_window_bits=9"),
        ],
    };
    let c = client_pmd_config(key, &resp).unwrap().unwrap();
    assert_eq!(c.client_max_window_bits, WindowBit::Nine);
    assert_eq!(c.server_max_window_bits, WindowBit::Nine);
}

use ruwasm::base64::base64_encode;
use ruwasm::command::{join_words, shellish_command, LogLevel};
use ruwasm::http::{
    handshake, header_contains_token, header_eq, header_value, headers_hashable, http_response,
    parse_http_request, push_header_byte, websocket_accept_key, websocket_upgrade_response,
    Handshake, HeaderProgress, HttpError, HttpRequest, MAX_HTTP_HEADER_BYTES,
};
use ruwasm::sha1::sha1_digest;
use ruwasm::websocket::{
    client_frame_action, client_frame_header_len, close_payload, drain_chunk_len, encode_frame,
    frame_header, keeps_payload, parse_client_frame_header, unmask, ClientFrameAction,
    FrameError,
};

fn hex(bytes: &[u8]) -> String {
    bytes.iter().map(|byte| format!("{byte:02x}")).collect::<String>()
}

fn sample_request() -> HttpRequest {
    HttpRequest {
        method: "GET".to_string(),
        headers: vec![
            ("Upgrade".to_string(), "websocket".to_string()),
            ("Connection".to_string(), "keep-alive, Upgrade".to_string()),
            ("Sec-WebSocket-Version".to_string(), "13".to_string()),
            (
                "Sec-WebSocket-Key".to_string(),
                "dGhlIHNhbXBsZSBub25jZQ==".to_string(),
            ),
        ],
    }
}

#[test]
fn computes_sha1() {
    let digest = sha1_digest(b"abc");
    let hex = digest
        .iter()
        .map(|byte| format!("{byte:02x}"))
        .collect::<String>();
    assert_eq!(hex, "a9993e364706816aba3e25717850c26c9cd0d89d");
}

#[test]
fn computes_websocket_accept_key() {
    let request = HttpRequest {
        method: "GET".to_string(),
        headers: vec![
            ("Upgrade".to_string(), "websocket".to_string()),
            ("Connection".to_string(), "keep-alive, Upgrade".to_string()),
            ("Sec-WebSocket-Version".to_string(), "13".to_string()),
            (
                "Sec-WebSocket-Key".to_string(),
                "dGhlIHNhbXBsZSBub25jZQ==".to_string(),
            ),
        ],
    };
    assert_eq!(
        websocket_accept_key(&request).as_deref(),
        Some("s3pPLMBiTxaQ9kYGzzhZRbK+xOo=")
    );
}

#[test]
fn sha1_of_empty_and_multi_block_inputs() {
    assert_eq!(hex(&sha1_digest(b"")), "da39a3ee5e6b4b0d3255bfef95601890afd80709");
    assert_eq!(
        hex(&sha1_digest(
            b"abcdbcdecdefdefgefghfghighijhijkijkljklmklmnlmnomnopnopq"
        )),
        "84983e441c3bd26ebaae4aa1f95129e5e54670f1"
    );
    let million_a = vec![b'a'; 1000];
    assert_eq!(
        hex(&sha1_digest(&million_a)),
        "291e9a6c66994949b57ba5e650361e98fc36b1ba"
    );
}

#[test]
fn base64_known_vectors() {
    assert_eq!(base64_encode(b""), "");
    assert_eq!(base64_encode(b"f"), "Zg==");
    assert_eq!(base64_encode(b"fo"), "Zm8=");
    assert_eq!(base64_encode(b"foo"), "Zm9v");
    assert_eq!(base64_encode(b"foob"), "Zm9vYg==");
    assert_eq!(base64_encode(b"fooba"), "Zm9vYmE=");
    assert_eq!(base64_encode(b"foobar"), "Zm9vYmFy");
    assert_eq!(base64_encode(&[0xff, 0xfe, 0xfd]), "//79");
}

#[test]
fn base64_length_is_four_per_started_triple() {
    for n in 0..20usize {
        let input = vec![7u8; n];
        assert_eq!(base64_encode(&input).len(), n.div_ceil(3) * 4);
    }
}

#[test]
fn accept_key_needs_every_upgrade_header() {
    let mut r = sample_request();
    r.method = "get".to_string();
    assert!(websocket_accept_key(&r).is_some());

    let mut r = sample_request();
    r.method = "POST".to_string();
    assert_eq!(websocket_accept_key(&r), None);

    let mut r = sample_request();
    r.headers[0].1 = "h2c".to_string();
    assert_eq!(websocket_accept_key(&r), None);

    let mut r = sample_request();
    r.headers[1].1 = "keep-alive".to_string();
    assert_eq!(websocket_accept_key(&r), None);

    let mut r = sample_request();
    r.headers[2].1 = "8".to_string();
    assert_eq!(websocket_accept_key(&r), None);

    let mut r = sample_request();
    r.headers.pop();
    assert_eq!(websocket_accept_key(&r), None);
}

#[test]
fn header_lookup_ignores_case_and_takes_first() {
    let r = HttpRequest {
        method: "GET".to_string(),
        headers: vec![
            ("X-A".to_string(), "one".to_string()),
            ("x-a".to_string(), "two".to_string()),
            ("Connection".to_string(), " Keep-Alive ,  UPGRADE ".to_string()),
        ],
    };
    assert_eq!(header_value(&r, "x-A"), Some("one"));
    assert_eq!(header_value(&r, "missing"), None);
    assert!(header_eq(&r, "X-A", "ONE"));
    assert!(!header_eq(&r, "X-A", "two"));
    assert!(header_contains_token(&r, "connection", "upgrade"));
    assert!(header_contains_token(&r, "connection", "keep-alive"));
    assert!(!header_contains_token(&r, "connection", "close"));
    assert!(!header_contains_token(&r, "missing", "upgrade"));
}

#[test]
fn parses_request_heads() {
    let raw = b"GET /chat HTTP/1.1\r\nHost: example.com\r\nUpgrade:  websocket \r\n\r\n".to_vec();
    let req = parse_http_request(raw).unwrap();
    assert_eq!(req.method, "GET");
    assert_eq!(
        req.headers,
        vec![
            ("Host".to_string(), "example.com".to_string()),
            ("Upgrade".to_string(), "websocket".to_string()),
        ]
    );

    let req = parse_http_request(b"PUT x\nA:b\n\n".to_vec()).unwrap();
    assert_eq!(req.method, "PUT");
    assert_eq!(req.headers, vec![("A".to_string(), "b".to_string())]);
}

#[test]
fn refuses_bad_request_heads() {
    assert_eq!(
        parse_http_request(vec![b'G', 0xff, b'\n', b'\n']).err(),
        Some(HttpError::NotUtf8)
    );
    assert_eq!(parse_http_request(b"".to_vec()).err(), Some(HttpError::MissingRequestLine));
    assert_eq!(parse_http_request(b"   \r\n\r\n".to_vec()).err(), Some(HttpError::MissingMethod));
    assert_eq!(
        parse_http_request(b"GET /\r\nno colon here\r\n\r\n".to_vec()).err(),
        Some(HttpError::MalformedHeader)
    );
}

#[test]
fn header_bytes_complete_or_overflow() {
    let mut raw = Vec::new();
    let mut last = HeaderProgress::Incomplete;
    for b in b"GET / HTTP/1.1\r\n\r\n" {
        last = push_header_byte(&mut raw, *b);
    }
    assert_eq!(last, HeaderProgress::Complete);

    let mut raw = Vec::new();
    assert_eq!(push_header_byte(&mut raw, b'\n'), HeaderProgress::Incomplete);
    assert_eq!(push_header_byte(&mut raw, b'\n'), HeaderProgress::Complete);

    let mut raw = vec![b'a'; MAX_HTTP_HEADER_BYTES];
    assert_eq!(push_header_byte(&mut raw, b'a'), HeaderProgress::TooLarge);
}

#[test]
fn writes_http_responses() {
    let out = http_response("426 Upgrade Required", &[("Connection", "close")], b"hi\n");
    assert_eq!(
        out,
        b"HTTP/1.1 426 Upgrade Required\r\nContent-Length: 3\r\nConnection: close\r\n\r\nhi\n"
            .to_vec()
    );
    let out = websocket_upgrade_response("abc=");
    assert_eq!(
        out,
        b"HTTP/1.1 101 Switching Protocols\r\nUpgrade: websocket\r\nConnection: Upgrade\r\nSec-WebSocket-Accept: abc=\r\n\r\n"
            .to_vec()
    );
}

#[test]
fn handshake_answers() {
    match handshake(None) {
        Handshake::BadRequest(out) => assert_eq!(
            out,
            b"HTTP/1.1 400 Bad Request\r\nContent-Length: 22\r\n\r\nbad websocket request\n"
                .to_vec()
        ),
        _ => panic!("expected a 400"),
    }
    let mut plain = sample_request();
    plain.headers.clear();
    assert!(headers_hashable(&plain));
    match handshake(Some(&plain)) {
        Handshake::UpgradeRequired(out) => assert_eq!(
            out,
            b"HTTP/1.1 426 Upgrade Required\r\nContent-Length: 27\r\nConnection: close\r\nUpgrade: websocket\r\n\r\nwebsocket upgrade required\n"
                .to_vec()
        ),
        _ => panic!("expected a 426"),
    }
    let req = sample_request();
    assert!(headers_hashable(&req));
    match handshake(Some(&req)) {
        Handshake::Upgrade(out) => assert_eq!(
            out,
            websocket_upgrade_response("s3pPLMBiTxaQ9kYGzzhZRbK+xOo=")
        ),
        _ => panic!("expected a 101"),
    }
}

#[test]
fn frame_headers_by_length() {
    assert_eq!(frame_header(0x2, 5), vec![0x82, 5]);
    assert_eq!(frame_header(0x2, 125), vec![0x82, 125]);
    assert_eq!(frame_header(0x2, 126), vec![0x82, 126, 0, 126]);
    assert_eq!(frame_header(0x8, 65535), vec![0x88, 126, 0xff, 0xff]);
    assert_eq!(
        frame_header(0x2, 65536),
        vec![0x82, 127, 0, 0, 0, 0, 0, 1, 0, 0]
    );
    assert_eq!(frame_header(0x1A, 0), vec![0x8A, 0]);
    assert_eq!(encode_frame(0xA, b"hi"), vec![0x8A, 2, b'h', b'i']);
}

#[test]
fn client_frame_headers() {
    assert_eq!(client_frame_header_len(0x81, 0x05), Err(FrameError::NotMasked));
    assert_eq!(client_frame_header_len(0x81, 0x85), Ok(6));
    assert_eq!(client_frame_header_len(0x81, 0xFE), Ok(8));
    assert_eq!(client_frame_header_len(0x81, 0xFF), Ok(14));

    let h = parse_client_frame_header(&[0x89, 0x83, 1, 2, 3, 4]).unwrap();
    assert_eq!(h.opcode, 0x9);
    assert_eq!(h.payload_len, 3);
    assert_eq!(h.mask, [1, 2, 3, 4]);

    let h = parse_client_frame_header(&[0x82, 0xFE, 0x01, 0x00, 9, 8, 7, 6]).unwrap();
    assert_eq!(h.payload_len, 256);
    assert_eq!(h.mask, [9, 8, 7, 6]);

    let h = parse_client_frame_header(&[0x82, 0xFF, 0, 0, 0, 1, 0, 0, 0, 2, 1, 1, 1, 1]).unwrap();
    assert_eq!(h.payload_len, (1u64 << 32) + 2);

    assert_eq!(
        parse_client_frame_header(&[0x88, 0xFE, 0x00, 0x7E, 0, 0, 0, 0]),
        Err(FrameError::ControlFrameTooLarge)
    );
    assert!(keeps_payload(0x8) && keeps_payload(0x9) && keeps_payload(0xA));
    assert!(!keeps_payload(0x2) && !keeps_payload(0xB));
}

#[test]
fn unmasks_payloads() {
    let mut p = vec![0x7f ^ 0x37, 0x9f ^ 0xfa, 0x4d ^ 0x21, 0x51 ^ 0x3d, 0x58 ^ 0x37];
    unmask(&mut p, [0x37, 0xfa, 0x21, 0x3d]);
    assert_eq!(p, vec![0x7f, 0x9f, 0x4d, 0x51, 0x58]);
}

#[test]
fn drain_chunks_are_at_most_a_buffer() {
    assert_eq!(drain_chunk_len(1), 1);
    assert_eq!(drain_chunk_len(4095), 4095);
    assert_eq!(drain_chunk_len(4096), 4096);
    assert_eq!(drain_chunk_len(1 << 40), 4096);
}

#[test]
fn close_payload_truncates_reason() {
    assert_eq!(
        close_payload(1000, "command finished"),
        [&[0x03, 0xe8][..], b"command finished"].concat()
    );
    let long = "x".repeat(200);
    let p = close_payload(1011, &long);
    assert_eq!(p.len(), 125);
    assert_eq!(&p[..2], &[0x03, 0xf3]);
}

#[test]
fn client_frame_actions() {
    assert_eq!(client_frame_action(0x8), ClientFrameAction::Close);
    assert_eq!(client_frame_action(0x9), ClientFrameAction::Pong);
    assert_eq!(client_frame_action(0xA), ClientFrameAction::Ignore);
    assert_eq!(client_frame_action(0x2), ClientFrameAction::Ignore);
}

#[test]
fn shellish_quotes_unusual_arguments() {
    let cmd = vec![
        "rtl_data_stream".to_string(),
        "--freq".to_string(),
        "144750000".to_string(),
        "a b".to_string(),
        "q\"t".to_string(),
    ];
    assert_eq!(
        shellish_command(&cmd),
        "rtl_data_stream --freq 144750000 \"a b\" \"q\\\"t\""
    );
    assert_eq!(shellish_command(&[]), "");
    assert_eq!(shellish_command(&["./x:y_z-1".to_string()]), "./x:y_z-1");
}

#[test]
fn log_levels_map_to_verbosity() {
    assert_eq!(LogLevel::Error.verbosity(), 0);
    assert_eq!(LogLevel::Warn.verbosity(), 1);
    assert_eq!(LogLevel::Info.verbosity(), 2);
    assert_eq!(LogLevel::Debug.verbosity(), 3);
    assert_eq!(LogLevel::Trace.verbosity(), 4);
}

#[test]
fn words_join_with_single_spaces() {
    assert_eq!(join_words(&[]), "");
    assert_eq!(join_words(&["a".to_string()]), "a");
    assert_eq!(
        join_words(&["a".to_string(), "\"b c\"".to_string(), "".to_string()]),
        "a \"b c\" "
    );
}

#[test]
fn frame_header_lengths_read_back() {
    for len in [0usize, 1, 125, 126, 65535, 65536, 1 << 40] {
        let mut h = frame_header(0x2, len);
        h[1] |= 0x80;
        h.extend_from_slice(&[1, 2, 3, 4]);
        let parsed = parse_client_frame_header(&h).unwrap();
        assert_eq!(parsed.payload_len, len as u64);
        assert_eq!(parsed.opcode, 0x2);
        assert_eq!(client_frame_header_len(h[0], h[1]), Ok(h.len()));
    }
}

#[test]
fn accept_key_ignores_ascii_case() {
    let lower = HttpRequest {
        method: "get".to_string(),
        headers: vec![
            ("upgrade".to_string(), "WebSocket".to_string()),
            ("CONNECTION".to_string(), "Keep-Alive, UPGRADE".to_string()),
            ("sec-websocket-version".to_string(), "13".to_string()),
            (
                "SEC-WEBSOCKET-KEY".to_string(),
                "dGhlIHNhbXBsZSBub25jZQ==".to_string(),
            ),
        ],
    };
    assert_eq!(
        websocket_accept_key(&lower),
        websocket_accept_key(&sample_request())
    );
    assert!(websocket_accept_key(&lower).is_some());
}

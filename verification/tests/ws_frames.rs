use dreamfish::ws::{accept, close_frame, read_frame, extract_key, frame, handshake_response, pong_frame, text_frame, ws_reply, Frame, FrameStep, WsReply};

#[test]
fn handshake_accept_matches_rfc_example() {
    let key = "dGhlIHNhbXBsZSBub25jZQ==";
    assert_eq!(accept(key), "s3pPLMBiTxaQ9kYGzzhZRbK+xOo=");
}

#[test]
fn frame_building_small_and_extended() {
    assert_eq!(text_frame("hi"), vec![0x81, 2, b'h', b'i']);
    let big = [0u8; 200];
    let f = frame(0x1, &big);
    assert_eq!(f[0], 0x81);
    assert_eq!(f[1], 126);
    assert_eq!(u16::from_be_bytes([f[2], f[3]]), 200);
    assert_eq!(f.len(), 204);
}

#[test]
fn accept_of_empty_key() {
    // SHA-1 of the GUID alone, in base64.
    assert_eq!(accept("").len(), 28);
    assert!(accept("").ends_with('='));
}

#[test]
fn handshake_response_carries_accept() {
    let r = handshake_response("dGhlIHNhbXBsZSBub25jZQ==");
    let text = String::from_utf8(r).unwrap();
    assert_eq!(
        text,
        "HTTP/1.1 101 Switching Protocols\r\nUpgrade: websocket\r\nConnection: Upgrade\r\nSec-WebSocket-Accept: s3pPLMBiTxaQ9kYGzzhZRbK+xOo=\r\n\r\n"
    );
}

#[test]
fn extract_key_is_case_insensitive_and_trimmed() {
    let head = "GET /__dreamfish__ws HTTP/1.1\r\nHost: x\r\nsec-websocket-key:  abc== \r\n\r\n";
    assert_eq!(extract_key(head), Some("abc==".to_string()));
    assert_eq!(extract_key("GET / HTTP/1.1\r\nHost: x\r\n"), None);
}

#[test]
fn frame_with_64_bit_length() {
    let big = vec![7u8; 70000];
    let f = frame(0x2, &big);
    assert_eq!(f[0], 0x82);
    assert_eq!(f[1], 127);
    assert_eq!(u64::from_be_bytes([f[2], f[3], f[4], f[5], f[6], f[7], f[8], f[9]]), 70000);
    assert_eq!(f.len(), 70010);
}

#[test]
fn pong_and_close_frames() {
    assert_eq!(pong_frame(&[1, 2]), vec![0x8A, 2, 1, 2]);
    assert_eq!(close_frame(1000), vec![0x88, 2, 3, 232]);
}

#[test]
fn decode_reads_back_a_built_frame() {
    let f = text_frame("hello");
    match read_frame(&f) {
        FrameStep::Ready(Frame::Text(p), used) => {
            assert_eq!(p, b"hello".to_vec());
            assert_eq!(used, f.len());
        }
        _ => panic!("expected a text frame"),
    }
}

#[test]
fn decode_masked_ping_and_partial_input() {
    // masked ping "ab" with mask 1,2,3,4
    let bytes = vec![0x89, 0x82, 1, 2, 3, 4, b'a' ^ 1, b'b' ^ 2];
    match read_frame(&bytes) {
        FrameStep::Ready(Frame::Ping(p), used) => {
            assert_eq!(p, b"ab".to_vec());
            assert_eq!(used, 8);
        }
        _ => panic!("expected a ping"),
    }
    assert!(matches!(read_frame(&bytes[..5]), FrameStep::NeedMore));
    assert!(matches!(read_frame(&bytes[..1]), FrameStep::NeedMore));
}

#[test]
fn decode_refuses_unknown_opcode_and_huge_frames() {
    match read_frame(&[0x83, 0]) {
        FrameStep::Invalid(m) => assert_eq!(m, "unsupported opcode 3"),
        _ => panic!("expected an error"),
    }
    let mut huge = vec![0x82, 127];
    huge.extend_from_slice(&(2u64 * 1024 * 1024).to_be_bytes());
    match read_frame(&huge) {
        FrameStep::Invalid(m) => assert_eq!(m, "websocket frame too large"),
        _ => panic!("expected an error"),
    }
}

#[test]
fn close_frame_code_and_default() {
    match read_frame(&[0x88, 0]) {
        FrameStep::Ready(Frame::Close(c), 2) => assert_eq!(c, 1000),
        _ => panic!("expected a close"),
    }
    match read_frame(&close_frame(1001)) {
        FrameStep::Ready(Frame::Close(c), 4) => assert_eq!(c, 1001),
        _ => panic!("expected a close"),
    }
}

#[test]
fn replies_to_ping_and_close() {
    match ws_reply(&Frame::Ping(vec![9])) {
        WsReply::Send(b) => assert_eq!(b, vec![0x8A, 1, 9]),
        _ => panic!("expected a pong"),
    }
    match ws_reply(&Frame::Close(1001)) {
        WsReply::SendAndClose(b) => assert_eq!(b, vec![0x88, 2, 3, 232]),
        _ => panic!("expected a close"),
    }
    assert!(matches!(ws_reply(&Frame::Text(vec![])), WsReply::Nothing));
}

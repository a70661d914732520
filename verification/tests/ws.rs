use atrium::http::Request;
use atrium::ws::{accept, accept_key, base64, frame_progress, read_frame, send_text, write_frame, FrameRead, GUID, TEXT};
use sha1::{Digest, Sha1};

#[test]
fn accept_key_matches_rfc_example() {
    // RFC 6455 §1.3.
    let digest = Sha1::digest(format!("dGhlIHNhbXBsZSBub25jZQ=={GUID}").as_bytes());
    assert_eq!(base64(&digest), "s3pPLMBiTxaQ9kYGzzhZRbK+xOo=");
}

#[test]
fn masked_frame_round_trip() {
    let payload = b"hello";
    let mask = [1u8, 2, 3, 4];
    let mut bytes = vec![0x81, 0x80 | payload.len() as u8];
    bytes.extend_from_slice(&mask);
    bytes.extend(payload.iter().enumerate().map(|(i, b)| b ^ mask[i % 4]));
    let f = read_frame(&bytes).unwrap();
    assert_eq!(f.opcode, TEXT);
    assert_eq!(f.payload, payload);
}

#[test]
fn accept_key_of_the_rfc_key() {
    assert_eq!(accept_key("dGhlIHNhbXBsZSBub25jZQ=="), "s3pPLMBiTxaQ9kYGzzhZRbK+xOo=");
}

#[test]
fn base64_pads() {
    assert_eq!(base64(b""), "");
    assert_eq!(base64(b"f"), "Zg==");
    assert_eq!(base64(b"fo"), "Zm8=");
    assert_eq!(base64(b"foo"), "Zm9v");
    assert_eq!(base64(b"foobar"), "Zm9vYmFy");
    assert_eq!(base64(&[0xfb, 0xff]), "+/8=");
}

#[test]
fn answers_the_handshake() {
    let req = Request {
        method: "GET".into(),
        path: "/ws".into(),
        headers: vec![("sec-websocket-key".into(), "dGhlIHNhbXBsZSBub25jZQ==".into())],
        body: vec![],
        raw_head: vec![],
    };
    let mut out = Vec::new();
    accept(&mut out, &req);
    assert_eq!(
        out,
        b"HTTP/1.1 101 Switching Protocols\r\nUpgrade: websocket\r\nConnection: Upgrade\r\nSec-WebSocket-Accept: s3pPLMBiTxaQ9kYGzzhZRbK+xOo=\r\n\r\n".to_vec()
    );
}

#[test]
fn recognises_an_upgrade() {
    let mk = |h: Vec<(&str, &str)>| Request {
        method: "GET".into(),
        path: "/ws".into(),
        headers: h.into_iter().map(|(a, b)| (a.to_string(), b.to_string())).collect(),
        body: vec![],
        raw_head: vec![],
    };
    assert!(atrium::ws::is_upgrade(&mk(vec![("upgrade", "WebSocket"), ("sec-websocket-key", "k")])));
    assert!(!atrium::ws::is_upgrade(&mk(vec![("upgrade", "websocket")])));
    assert!(!atrium::ws::is_upgrade(&mk(vec![("upgrade", "h2c"), ("sec-websocket-key", "k")])));
}

#[test]
fn writes_server_frames() {
    let mut out = Vec::new();
    send_text(&mut out, "hi");
    assert_eq!(out, vec![0x81, 2, b'h', b'i']);
    let mut out = Vec::new();
    write_frame(&mut out, 0xA, &[7u8; 126]);
    assert_eq!(&out[..4], &[0x8A, 126, 0, 126]);
    assert_eq!(out.len(), 4 + 126);
    let mut out = Vec::new();
    write_frame(&mut out, 0x1, &vec![0u8; 70000]);
    assert_eq!(&out[..10], &[0x81, 127, 0, 0, 0, 0, 0, 1, 0x11, 0x70]);
}

#[test]
fn refuses_unmasked_and_oversized_frames() {
    assert!(read_frame(&[0x81, 0x02, b'h', b'i']).is_none());
    assert!(matches!(frame_progress(&[0x81, 0x02]), FrameRead::Malformed));
    let big = [0x81u8, 0xFF, 0, 0, 0, 0, 0, 4, 0, 1];
    assert!(matches!(frame_progress(&big), FrameRead::Malformed));
}

#[test]
fn frame_progress_asks_for_what_it_needs() {
    assert!(matches!(frame_progress(&[]), FrameRead::Need(2)));
    assert!(matches!(frame_progress(&[0x81, 0xFE]), FrameRead::Need(4)));
    assert!(matches!(frame_progress(&[0x81, 0xFE, 0, 200]), FrameRead::Need(208)));
    let mut f = vec![0x89, 0x80 | 3, 0, 0, 0, 0];
    f.extend_from_slice(b"abc");
    f.extend_from_slice(b"next");
    match frame_progress(&f) {
        FrameRead::Done(frame, used) => {
            assert_eq!(frame.opcode, 0x9);
            assert_eq!(frame.payload, b"abc");
            assert_eq!(used, 9);
        }
        other => panic!("{other:?}"),
    }
}

#[test]
fn frames_with_other_flags_and_trailing_bytes() {
    // Not final, one reserved bit set, a ping; three bytes of the next frame follow.
    let payload = b"abc";
    let mask = [9u8, 8, 7, 6];
    let mut bytes = vec![0x49, 0x80 | payload.len() as u8];
    bytes.extend_from_slice(&mask);
    bytes.extend(payload.iter().enumerate().map(|(i, b)| b ^ mask[i % 4]));
    let len = bytes.len();
    bytes.extend_from_slice(&[0x81, 0x80, 0]);
    match frame_progress(&bytes) {
        FrameRead::Done(f, used) => {
            assert_eq!(f.opcode, 0x9);
            assert_eq!(f.payload, payload);
            assert_eq!(used, len);
        }
        other => panic!("{other:?}"),
    }
}

#[test]
fn base64_length_is_four_per_started_group() {
    for n in 0..10usize {
        assert_eq!(base64(&vec![7u8; n]).len(), 4 * ((n + 2) / 3));
    }
}

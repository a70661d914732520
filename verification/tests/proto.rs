use atrium::proto::{frame_len, read_frame, write_frame, FrameError, MAX_FRAME_BYTES};
use serde_json::Value;

#[test]
fn round_trip() {
    let mut doc = serde_json::Map::new();
    doc.insert("type".to_string(), Value::from("logon_start"));
    doc.insert("conv".to_string(), Value::from(7));
    doc.insert("username".to_string(), Value::from("jack"));
    doc.insert("remote".to_string(), Value::from("10.0.2.2"));
    let body = serde_json::to_vec(&Value::Object(doc)).unwrap();
    let mut buf = Vec::new();
    write_frame(&mut buf, &body).unwrap();
    let back: Value = serde_json::from_slice(&read_frame(&buf).unwrap()).unwrap();
    let conv = back["conv"].as_u64().unwrap();
    let username = back["username"].as_str().unwrap();
    let remote = back["remote"].as_str().unwrap();
    assert_eq!((conv, username, remote), (7, "jack", "10.0.2.2"));
}

#[test]
fn frame_is_length_then_body() {
    let mut buf = vec![9u8];
    write_frame(&mut buf, b"abc").unwrap();
    assert_eq!(buf, vec![9, 3, 0, 0, 0, b'a', b'b', b'c']);
    assert_eq!(frame_len(&[3, 1, 0, 0]).unwrap(), 259);
}

#[test]
fn refuses_large_and_short_frames() {
    let mut buf = Vec::new();
    assert!(matches!(write_frame(&mut buf, &vec![0u8; MAX_FRAME_BYTES + 1]), Err(FrameError::TooLarge)));
    assert!(buf.is_empty());
    assert!(write_frame(&mut buf, &vec![0u8; MAX_FRAME_BYTES]).is_ok());
    assert!(matches!(frame_len(&[1, 0, 4, 0]), Err(FrameError::TooLarge)));
    assert!(matches!(read_frame(&[1, 0, 4, 0]), Err(FrameError::TooLarge)));
    assert!(matches!(read_frame(&[3, 0, 0, 0, b'a']), Err(FrameError::Truncated)));
    assert!(matches!(read_frame(&[3, 0]), Err(FrameError::Truncated)));
}

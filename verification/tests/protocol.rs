use mq::protocol::{check_frame, split_frames};
use mq::wire::{u16_to_be_bytes, u32_to_be_bytes, u64_to_be_bytes};
use mq::{BinaryHeader, Response, ResponseCode, ResponseMessage, Topic};

#[test]
fn tcp_header_byte_test() {
    let message = BinaryHeader::new(
        1,
        Some("new".to_string()),
        Some(b"random byte data".to_vec()),
    );
    assert_eq!(message, BinaryHeader::from_bytes(&message.to_bytes()));
}

#[test]
fn tcp_header_byte_test_without_data() {
    let message = BinaryHeader::new(1, Some("new".to_string()), None);
    assert_eq!(message, BinaryHeader::from_bytes(&message.to_bytes()));
}

#[test]
fn payload_byte_test() {
    let topic = Topic::new(1, 1718709072, b"Hello World!".to_vec());
    assert_eq!(topic, Topic::from_bytes(&topic.to_bytes()));
}

#[test]
fn response_byte_test_with_data() {
    let message = Response::new(
        ResponseCode::Okay,
        ResponseMessage::NoNewMessages,
        Some(b"No new messages".to_vec()),
    );
    assert_eq!(message, Response::from_bytes(&message.to_bytes()));
}

#[test]
fn response_byte_test_without_data() {
    let message = Response::new(ResponseCode::Okay, ResponseMessage::NoNewMessages, None);
    assert_eq!(message, Response::from_bytes(&message.to_bytes()));
}

#[test]
fn header_field_layout() {
    let message = BinaryHeader::new(2, Some("abc".to_string()), Some(vec![9, 9]));
    assert_eq!(message.length, 12 + 3 + 2);
    assert_eq!(message.payload_length, 2);
    let bytes = message.to_bytes();
    assert_eq!(bytes.len(), message.length as usize);
    assert_eq!(&bytes[0..4], &[0, 0, 0, 2]);
    assert_eq!(&bytes[4..8], &[0, 0, 0, 17]);
    assert_eq!(&bytes[8..12], &[0, 0, 0, 2]);
    assert_eq!(&bytes[12..15], b"abc");
    assert_eq!(&bytes[15..17], &[9, 9]);
}

#[test]
fn topic_field_layout() {
    let topic = Topic::new(7, 3, b"xy".to_vec());
    let bytes = topic.to_bytes();
    assert_eq!(bytes.len(), 18);
    assert_eq!(&bytes[0..4], &[0, 0, 0, 7]);
    assert_eq!(&bytes[4..8], &[0, 0, 0, 18]);
    assert_eq!(&bytes[8..16], &[0, 0, 0, 0, 0, 0, 0, 3]);
    assert_eq!(&bytes[16..18], b"xy");
}

#[test]
fn topic_round_trip_empty_message() {
    let topic = Topic::new(0, 0, Vec::new());
    assert_eq!(topic, Topic::from_bytes(&topic.to_bytes()));
}

#[test]
fn response_field_layout() {
    let resp = Response::new(
        ResponseCode::Error,
        ResponseMessage::QueueNameRequired,
        None,
    );
    let bytes = resp.to_bytes();
    assert_eq!(bytes, vec![0, 1, 0, 5, 0, 0, 0, 8]);
}

#[test]
fn be_bytes_exact_values() {
    assert_eq!(u16_to_be_bytes(0x0102), vec![1, 2]);
    assert_eq!(u32_to_be_bytes(0x01020304), vec![1, 2, 3, 4]);
    assert_eq!(
        u64_to_be_bytes(0x0102030405060708),
        vec![1, 2, 3, 4, 5, 6, 7, 8]
    );
    assert_eq!(u32_to_be_bytes(u32::MAX), vec![255, 255, 255, 255]);
}

#[test]
fn split_two_complete_frames_and_leftover() {
    let a = BinaryHeader::new(2, Some("t".to_string()), Some(vec![1, 2, 3])).to_bytes();
    let b = BinaryHeader::new(1, Some("t".to_string()), None).to_bytes();
    let mut stream = Vec::new();
    stream.extend_from_slice(&a);
    stream.extend_from_slice(&b);
    stream.extend_from_slice(&[0, 0, 0, 1]);
    let (frames, leftover) = split_frames(&stream).unwrap();
    assert_eq!(frames.len(), 2);
    assert_eq!(frames[0], a);
    assert_eq!(frames[1], b);
    assert_eq!(leftover, vec![0, 0, 0, 1]);
}

#[test]
fn split_incomplete_frame_is_kept() {
    let a = BinaryHeader::new(2, Some("t".to_string()), Some(vec![1, 2, 3])).to_bytes();
    let partial = &a[..a.len() - 1];
    let (frames, leftover) = split_frames(partial).unwrap();
    assert_eq!(frames.len(), 0);
    assert_eq!(leftover, partial.to_vec());
}

#[test]
fn split_malformed_length_is_rejected() {
    // a declared total length below the fixed header width is malformed
    let bad = vec![0, 0, 0, 2, 0, 0, 0, 4, 0, 0, 0, 0];
    assert!(split_frames(&bad).is_none());
}

#[test]
fn response_message_wire_table() {
    assert!(matches!(
        ResponseMessage::from_u16(0),
        ResponseMessage::EmptyResponse
    ));
    assert!(matches!(
        ResponseMessage::from_u16(1),
        ResponseMessage::NoNewMessages
    ));
    assert!(matches!(
        ResponseMessage::from_u16(2),
        ResponseMessage::ResponseWithBody
    ));
    assert!(matches!(
        ResponseMessage::from_u16(3),
        ResponseMessage::ResponseWithMessage
    ));
    assert!(matches!(
        ResponseMessage::from_u16(4),
        ResponseMessage::ErrorResponse
    ));
    assert!(matches!(
        ResponseMessage::from_u16(5),
        ResponseMessage::QueueNameRequired
    ));
    assert!(matches!(
        ResponseMessage::from_u16(6),
        ResponseMessage::MessageBodyRequired
    ));
    assert!(matches!(
        ResponseMessage::from_u16(7),
        ResponseMessage::UNKNOWN
    ));
    for value in 0u16..=7 {
        assert_eq!(ResponseMessage::from_u16(value).value(), value);
    }
}

#[test]
fn check_frame_accepts_and_rejects() {
    let good = BinaryHeader::new(2, Some("t".to_string()), Some(vec![1, 2, 3])).to_bytes();
    assert!(check_frame(&good));

    // too short for a fixed header
    assert!(!check_frame(&good[..11]));

    // declared total length beyond the available bytes
    let mut truncated_decl = good.clone();
    truncated_decl[7] += 1;
    assert!(!check_frame(&truncated_decl));

    // payload length larger than the frame can carry
    let mut bad_payload_len = good.clone();
    bad_payload_len[11] = 200;
    assert!(!check_frame(&bad_payload_len));

    // queue name region that is not UTF-8
    let mut bad_name = good.clone();
    bad_name[12] = 0xff;
    assert!(!check_frame(&bad_name));
}

use mq::log::CommitLog;
use mq::{BinaryHeader, Broker, Response, ResponseCode, ResponseMessage, Topic};

fn publish_frame(queue: &str, payload: Vec<u8>) -> BinaryHeader {
    BinaryHeader::new(2, Some(queue.to_string()), Some(payload))
}

fn subscribe_frame(queue: &str) -> BinaryHeader {
    BinaryHeader::new(1, Some(queue.to_string()), None)
}

fn dispatch(broker: &mut Broker, frame: BinaryHeader) -> Option<Response> {
    broker.handle_client_command(frame.command, frame.payload, frame.queue_name)
}

#[test]
fn publish_then_subscribe_single_connection() {
    let mut broker = Broker::new(1024 * 1024, "root");
    let topic = Topic::new(1, 1718709072, b"Hello World!".to_vec());
    let topic_bytes = topic.to_bytes();

    let resp = dispatch(&mut broker, publish_frame("t", topic_bytes.clone())).unwrap();
    assert_eq!(
        resp,
        Response::new(ResponseCode::Okay, ResponseMessage::EmptyResponse, None)
    );

    let resp = dispatch(&mut broker, subscribe_frame("t")).unwrap();
    assert_eq!(
        resp,
        Response::new(
            ResponseCode::Okay,
            ResponseMessage::ResponseWithBody,
            Some(topic_bytes.clone())
        )
    );
    // the delivered body decodes back to the published record
    assert_eq!(Topic::from_bytes(&resp.response_data.unwrap()), topic);

    let resp = dispatch(&mut broker, subscribe_frame("t")).unwrap();
    assert_eq!(
        resp,
        Response::new(ResponseCode::Okay, ResponseMessage::NoNewMessages, None)
    );
}

#[test]
fn missing_queue_name() {
    let mut broker = Broker::new(1024 * 1024, "root");
    let topic = Topic::new(1, 1718709072, b"Hello World!".to_vec());
    let frame = BinaryHeader::new(2, Some(String::new()), Some(topic.to_bytes()));
    let resp = dispatch(&mut broker, frame).unwrap();
    assert_eq!(resp.response_code, 1);
    assert_eq!(
        resp.response_message,
        ResponseMessage::QueueNameRequired.value()
    );
    assert!(resp.response_data.is_none());
    assert_eq!(resp.response_length, 8);
}

#[test]
fn missing_payload_on_publish() {
    let mut broker = Broker::new(1024 * 1024, "root");
    let frame = BinaryHeader::new(2, Some("t".to_string()), None);
    let resp = dispatch(&mut broker, frame).unwrap();
    assert_eq!(resp.response_code, 1);
    assert_eq!(
        resp.response_message,
        ResponseMessage::MessageBodyRequired.value()
    );
    assert!(resp.response_data.is_none());
    assert_eq!(resp.response_length, 8);
}

#[test]
fn segment_rollover() {
    let mut broker = Broker::new(24, "root");
    let messages: Vec<Vec<u8>> = (0u8..3).map(|i| vec![i; 12]).collect();
    for m in &messages {
        let resp = dispatch(&mut broker, publish_frame("x", m.clone())).unwrap();
        assert_eq!(resp.response_code, 0);
    }
    let log = &broker.topics[0];
    assert_eq!(log.segments.len(), 2);
    assert_eq!(log.segments[0].log.data.len(), 24);
    assert_eq!(log.segments[0].log.index.offset, 16);
    assert_eq!(log.segments[0].log.index.data.len(), 16);
    assert!(log.segments[0].closed);
    assert_eq!(log.segments[1].log.data.len(), 12);
    assert_eq!(log.segments[1].log.index.offset, 8);
    assert!(!log.segments[1].closed);

    for m in &messages {
        let resp = dispatch(&mut broker, subscribe_frame("x")).unwrap();
        assert_eq!(resp.response_message, ResponseMessage::ResponseWithBody.value());
        assert_eq!(resp.response_data.as_deref(), Some(m.as_slice()));
    }
    let resp = dispatch(&mut broker, subscribe_frame("x")).unwrap();
    assert_eq!(
        resp,
        Response::new(ResponseCode::Okay, ResponseMessage::NoNewMessages, None)
    );
}

#[test]
fn restart_recovery() {
    let mut broker = Broker::new(24, "root");
    let messages: Vec<Vec<u8>> = (0u8..6).map(|i| vec![i; 12]).collect();
    for m in &messages {
        let resp = dispatch(&mut broker, publish_frame("r", m.clone())).unwrap();
        assert_eq!(resp.response_code, 0);
    }
    // persist every topic as its on-disk image, as the process does
    let images: Vec<mq::log::TopicData> = broker
        .topics
        .iter()
        .map(|log| mq::log::TopicData {
            name: log.name.clone(),
            segments: log
                .segments
                .iter()
                .map(|seg| mq::log::SegmentData {
                    log_bytes: seg.log.data.clone(),
                    index_bytes: seg.log.index.data.clone(),
                })
                .collect(),
            tracker: log.queue_pos.clone(),
        })
        .collect();

    let restored: Vec<CommitLog> = CommitLog::restore_from_disk(24, "root", images).unwrap();
    let mut broker2 = Broker::new(24, "root");
    broker2.restore_from_disk(restored);

    for m in &messages {
        let resp = dispatch(&mut broker2, subscribe_frame("r")).unwrap();
        assert_eq!(resp.response_message, ResponseMessage::ResponseWithBody.value());
        assert_eq!(resp.response_data.as_deref(), Some(m.as_slice()));
    }
    let resp = dispatch(&mut broker2, subscribe_frame("r")).unwrap();
    assert_eq!(
        resp,
        Response::new(ResponseCode::Okay, ResponseMessage::NoNewMessages, None)
    );
}

#[test]
fn two_publishers_one_subscriber() {
    let mut broker = Broker::new(1024 * 1024, "root");
    let count: u16 = 1000;
    let from_a: Vec<Vec<u8>> = (0..count).map(|i| format!("a-{i}").into_bytes()).collect();
    let from_b: Vec<Vec<u8>> = (0..count).map(|i| format!("b-{i}").into_bytes()).collect();
    // the registry lock serializes the two publishers; interleave their turns
    for i in 0..count as usize {
        let resp = dispatch(&mut broker, publish_frame("shared", from_a[i].clone())).unwrap();
        assert_eq!(resp.response_code, 0);
        let resp = dispatch(&mut broker, publish_frame("shared", from_b[i].clone())).unwrap();
        assert_eq!(resp.response_code, 0);
    }
    let mut drained: Vec<Vec<u8>> = Vec::new();
    loop {
        let resp = dispatch(&mut broker, subscribe_frame("shared")).unwrap();
        if resp.response_message == ResponseMessage::NoNewMessages.value() {
            break;
        }
        drained.push(resp.response_data.unwrap());
    }
    assert_eq!(drained.len(), 2 * count as usize);
    let got_a: Vec<&Vec<u8>> = drained.iter().filter(|m| m.starts_with(b"a-")).collect();
    let got_b: Vec<&Vec<u8>> = drained.iter().filter(|m| m.starts_with(b"b-")).collect();
    assert_eq!(got_a.len(), count as usize);
    assert_eq!(got_b.len(), count as usize);
    for i in 0..count as usize {
        assert_eq!(got_a[i], &from_a[i]);
        assert_eq!(got_b[i], &from_b[i]);
    }
}

#[test]
fn oversized_publish_is_rejected() {
    let mut broker = Broker::new(24, "root");
    let resp = dispatch(&mut broker, publish_frame("t", vec![1u8; 25])).unwrap();
    assert_eq!(resp.response_code, 1);
    assert_eq!(resp.response_message, ResponseMessage::ErrorResponse.value());
    assert_eq!(resp.response_data.as_deref(), Some(b"no space left".as_slice()));
    // and the topic stored nothing
    let resp = dispatch(&mut broker, subscribe_frame("t")).unwrap();
    assert_eq!(resp.response_message, ResponseMessage::NoNewMessages.value());
}

#[test]
fn subscribe_unknown_topic() {
    let mut broker = Broker::new(1024 * 1024, "root");
    let resp = dispatch(&mut broker, subscribe_frame("nowhere")).unwrap();
    assert_eq!(
        resp,
        Response::new(ResponseCode::Okay, ResponseMessage::NoNewMessages, None)
    );
}

#[test]
fn quit_produces_no_response() {
    let mut broker = Broker::new(1024 * 1024, "root");
    assert!(broker.handle_client_command(0, None, Some("t".to_string())).is_none());
}

#[test]
fn unknown_command_is_rejected() {
    let mut broker = Broker::new(1024 * 1024, "root");
    let resp = broker
        .handle_client_command(9, None, Some("t".to_string()))
        .unwrap();
    assert_eq!(resp.response_code, 1);
    assert_eq!(resp.response_message, ResponseMessage::ErrorResponse.value());
    assert_eq!(
        resp.response_data.as_deref(),
        Some(b"unsupported command".as_slice())
    );
    assert_eq!(resp.response_length, 8 + b"unsupported command".len() as u32);
}

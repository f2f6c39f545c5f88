use mq::log::{
    CommitLog, Entry, Segment, SegmentData, StorageError, TopicData, Tracker, SEGMENT_SIZE,
};
use std::time::{SystemTime, UNIX_EPOCH};

const PATH: &str = "test_data";

fn persist(log: &CommitLog) -> TopicData {
    TopicData {
        name: log.name.clone(),
        segments: log
            .segments
            .iter()
            .map(|seg| SegmentData {
                log_bytes: seg.log.data.clone(),
                index_bytes: seg.log.index.data.clone(),
            })
            .collect(),
        tracker: log.queue_pos.clone(),
    }
}

#[test]
fn test_create_log() {
    let offset = SystemTime::now()
        .duration_since(UNIX_EPOCH)
        .unwrap()
        .subsec_nanos();
    let mut seg = Segment::new(PATH, offset, SEGMENT_SIZE as u64);
    let data = b"Hello World!";
    seg.append_data(data).unwrap();
    assert_eq!(seg.current_offset, data.len() as u64)
}

#[test]
#[should_panic]
fn test_no_space_left() {
    let segment_size = 12;
    let data = b"Hello World!";
    let offset = SystemTime::now()
        .duration_since(UNIX_EPOCH)
        .unwrap()
        .subsec_nanos();
    let mut seg = Segment::new(PATH, offset, segment_size);
    seg.append_data(data).unwrap();
    seg.append_data(data).unwrap();
}

#[test]
fn test_index_offsets() {
    let offset = SystemTime::now()
        .duration_since(UNIX_EPOCH)
        .unwrap()
        .subsec_nanos();
    let mut seg = Segment::new(PATH, offset, SEGMENT_SIZE as u64);
    let data = b"Hello World!";
    seg.append_data(data).unwrap();
    seg.append_data(data).unwrap();
    seg.append_data(data).unwrap();
    let region = &seg.log.index.data;
    let expected_entries = vec![
        Entry::new(0, data.len() as u32).as_bytes(),
        Entry::new(data.len() as u32, data.len() as u32).as_bytes(),
        Entry::new((data.len() as u32) * 2, data.len() as u32).as_bytes(),
    ];
    let mut offset = 0;
    for expected in expected_entries {
        let entry_bytes = &region[offset..offset + expected.len()];
        assert_eq!(entry_bytes, expected);
        offset += expected.len();
    }
}

#[test]
fn test_log_read_at() {
    let offset = SystemTime::now()
        .duration_since(UNIX_EPOCH)
        .unwrap()
        .subsec_nanos();
    let mut seg = Segment::new(PATH, offset, SEGMENT_SIZE as u64);
    let data = b"Hello World!";
    let data2 = b"Hello World!1";
    seg.append_data(data).unwrap();
    seg.append_data(data2).unwrap();
    let read_data = seg.read_at(8).unwrap();
    let read_current_data = seg.read_at(16).unwrap();
    assert_eq!(read_data, data);
    assert_eq!(read_current_data, data2);
}

#[test]
#[should_panic]
fn test_log_read_at_panic() {
    let offset = SystemTime::now()
        .duration_since(UNIX_EPOCH)
        .unwrap()
        .subsec_nanos();
    let mut seg = Segment::new(PATH, offset, SEGMENT_SIZE as u64);
    let data = b"Hello World!";
    seg.append_data(data).unwrap();
    seg.read_at(0).unwrap();
}

#[test]
fn test_load_from_disk() {
    let path_str = format!("{PATH}/segments/");
    let num_segments = 6;
    let queue_name = "test";
    let data = b"Hello World!";
    let segment_size = data.len() as u64;
    let mut storage = CommitLog::new(queue_name, segment_size, &path_str);
    for _ in 0..num_segments {
        storage.save_to_disk(data).unwrap();
    }
    assert_eq!(storage.segments.len(), num_segments);
    let restored =
        CommitLog::restore_from_disk(segment_size, &path_str, vec![persist(&storage)]).unwrap();
    assert_eq!(restored.len(), 1);
    assert_eq!(restored[0].segments.len(), num_segments);
    assert_eq!(restored[0].name, queue_name);
}

#[test]
fn tracker_round_trip() {
    let bytes = Tracker::to_bytes(3, 16, 40);
    assert_eq!(bytes, vec![0, 0, 0, 3, 0, 0, 0, 16, 0, 0, 0, 40]);
    let tracker = Tracker::from_bytes(&bytes);
    assert_eq!(tracker.position, 3);
    assert_eq!(tracker.offset, 16);
    assert_eq!(tracker.last_write_offset, 40);
}

#[test]
fn entry_round_trip() {
    let entry = Entry::new(24, 12);
    let bytes = entry.as_bytes();
    assert_eq!(bytes, vec![0, 0, 0, 24, 0, 0, 0, 12]);
    let back = Entry::from_bytes(&bytes);
    assert_eq!(back.offset, 24);
    assert_eq!(back.size, 12);
}

#[test]
fn commit_log_read_in_order_across_segments() {
    let mut log = CommitLog::new("t", 24, "root");
    let messages: Vec<Vec<u8>> = (0u8..6).map(|i| vec![i; 12]).collect();
    for m in &messages {
        log.save_to_disk(m).unwrap();
    }
    assert_eq!(log.segments.len(), 3);
    for m in &messages {
        assert_eq!(&log.read().unwrap(), m);
    }
    assert!(matches!(
        log.read(),
        Err(StorageError::LogIndexOutofBound)
    ));
}

#[test]
fn commit_log_walk_from_start() {
    let mut log = CommitLog::new("t", 24, "root");
    let messages: Vec<Vec<u8>> = (0u8..5).map(|i| vec![i; 12]).collect();
    for m in &messages {
        log.save_to_disk(m).unwrap();
    }
    for m in &messages {
        assert_eq!(&log.next().unwrap(), m);
    }
    assert!(log.next().is_none());
}

#[test]
fn oversized_payload_is_rejected() {
    let mut log = CommitLog::new("t", 24, "root");
    let big = vec![7u8; 25];
    assert!(matches!(
        log.save_to_disk(&big),
        Err(StorageError::NoSpaceLeft)
    ));
    assert_eq!(log.segments.len(), 1);
}

#[test]
fn restore_empty_root_reports_dir_empty() {
    assert!(matches!(
        CommitLog::restore_from_disk(SEGMENT_SIZE as u64, "root", Vec::new()),
        Err(StorageError::DirEmpty)
    ));
}

#[test]
fn restore_topic_without_segments_reports_segment_not_found() {
    let td = TopicData {
        name: "t".to_string(),
        segments: Vec::new(),
        tracker: Vec::new(),
    };
    assert!(matches!(
        CommitLog::restore_from_disk(SEGMENT_SIZE as u64, "root", vec![td]),
        Err(StorageError::SegmentNotFound)
    ));
}

#[test]
fn restore_preserves_messages_and_cursor() {
    let mut log = CommitLog::new("t", 24, "root");
    let messages: Vec<Vec<u8>> = (0u8..6).map(|i| vec![i; 12]).collect();
    for m in &messages {
        log.save_to_disk(m).unwrap();
    }
    // consume two before the restart
    assert_eq!(&log.read().unwrap(), &messages[0]);
    assert_eq!(&log.read().unwrap(), &messages[1]);
    let restored = CommitLog::restore_from_disk(24, "root", vec![persist(&log)]).unwrap();
    let mut back = restored.into_iter().next().unwrap();
    for m in &messages[2..] {
        assert_eq!(&back.read().unwrap(), m);
    }
    assert!(back.read().is_err());
}

#[test]
fn restore_truncates_torn_log_tail() {
    let mut log = CommitLog::new("t", 1024, "root");
    log.save_to_disk(b"first").unwrap();
    let mut td = persist(&log);
    // a crash may leave log bytes with no committed index entry behind them
    td.segments[0].log_bytes.extend_from_slice(b"garbage");
    let restored = CommitLog::restore_from_disk(1024, "root", vec![td]).unwrap();
    let mut back = restored.into_iter().next().unwrap();
    assert_eq!(back.read().unwrap(), b"first");
    assert!(back.read().is_err());
}

use arbitrary::Unstructured;
use osh_oxy::event::Event;
use osh_oxy::formats::rmp::{encode_event, encode_events, load_osh_events, BinaryWriter, DecodeError, FrameDecoder};
use osh_oxy::merge::{load_binary_logs, EventFilter};

/// A test event drawn from `u`, with bounded times so that end times stay
/// far from overflow.
fn arbitrary_event(u: &mut Unstructured) -> Event {
    let seconds: i32 = u.arbitrary().unwrap();
    let duration: u32 = u.arbitrary().unwrap();
    let folder: String = u.arbitrary().unwrap();
    let machine_id: String = u.arbitrary().unwrap();
    let session_id: String = u.arbitrary().unwrap();
    Event {
        timestamp: seconds as i64 * 1000,
        command: u.arbitrary().unwrap(),
        duration: duration as i64,
        exit_code: u.arbitrary().unwrap(),
        folder,
        machine: format!("machine_{machine_id}"),
        session: format!("session_{session_id}"),
    }
}

fn event(timestamp: i64, duration: i64, command: &str, exit_code: i16) -> Event {
    Event {
        timestamp,
        command: command.to_string(),
        duration,
        exit_code,
        folder: "/home/user".to_string(),
        machine: "machine_a".to_string(),
        session: "session_a".to_string(),
    }
}

#[test]
fn rmp_write_binary_event() {
    let data = &[0; 1000];
    let mut u = Unstructured::new(data);
    let e = arbitrary_event(&mut u);

    let mut buffer: Vec<u8> = Vec::new();
    let mut writer = BinaryWriter::new(&mut buffer);
    e.write(&mut writer).unwrap();
    assert!(buffer.len() > 8);
}

#[test]
fn rmp_roundtrip_binary_event() {
    let num_events = 30;
    let data = &[0; 300];
    let mut u = Unstructured::new(data);

    let mut events = Vec::new();
    let mut buffer = Vec::new();
    let mut writer = BinaryWriter::new(&mut buffer);

    for _ in 0..num_events {
        let event = arbitrary_event(&mut u);
        event.clone().write(&mut writer).unwrap();
        events.push(event);
    }

    let read_events = load_osh_events(buffer.as_ref()).unwrap();
    assert_eq!(read_events.len(), num_events);
    assert!(read_events.into_iter().eq(events.into_iter().rev()));
}

#[test]
fn round_trip_of_boundary_events() {
    let cases = vec![
        event(0, 0, "", 0),
        event(1_700_000_000_000, 0, "ls -la", -1),
        event(-5, 7, "echo 'grüße' ✓ 日本", i16::MIN),
        event(i64::MAX, i64::MAX, "x", i16::MAX),
        event(i64::MIN, -1, "cargo build --release", 101),
    ];
    for e in cases {
        let bytes = encode_event(&e).unwrap();
        let payload_len = u64::from_le_bytes(bytes[0..8].try_into().unwrap()) as usize;
        assert_eq!(payload_len + 8, bytes.len());
        assert_eq!(load_osh_events(&bytes), Ok(vec![e]));
    }
}

#[test]
fn round_trip_of_random_events() {
    let mut seed: u64 = 0x9e37_79b9_7f4a_7c15;
    for _ in 0..200 {
        let mut bytes = Vec::new();
        for _ in 0..256 {
            seed ^= seed << 13;
            seed ^= seed >> 7;
            seed ^= seed << 17;
            bytes.push(seed as u8);
        }
        let mut u = Unstructured::new(&bytes);
        let e = arbitrary_event(&mut u);
        let framed = encode_event(&e).unwrap();
        assert_eq!(load_osh_events(&framed), Ok(vec![e]));
    }
}

#[test]
fn payload_is_messagepack_not_the_fields() {
    let e = event(1, 2, "ls", 0);
    let bytes = encode_event(&e).unwrap();
    // a MessagePack array of seven fields starts with 0x97
    assert_eq!(bytes[8], 0x97);
    assert!(bytes.windows(2).any(|w| w == b"ls"));
}

#[test]
fn encoded_log_reads_back_in_write_order() {
    let mut records = Vec::new();
    let mut t: i64 = 12345;
    for i in 0..50 {
        t = (t * 1103515245 + 12345) % 2147483648;
        records.push(event(t, i, &format!("cmd {i}"), (i % 3) as i16));
    }
    let bytes = encode_events(&records).unwrap();
    assert_eq!(load_osh_events(&bytes), Ok(records));
}

#[test]
fn empty_log_has_no_events() {
    assert_eq!(load_osh_events(&[]), Ok(vec![]));
}

#[test]
fn truncated_length_prefix_is_an_error() {
    let mut data = 1000u64.to_le_bytes().to_vec();
    data.extend_from_slice(&[7u8; 10]);
    assert_eq!(load_osh_events(&data), Err(DecodeError::Truncated));

    let filter = EventFilter::new(None);
    let good = encode_event(&event(1, 1, "ls", 0)).unwrap();
    assert_eq!(load_binary_logs(&[good, data], &filter), Err(DecodeError::Truncated));
}

#[test]
fn partial_length_prefix_is_an_error() {
    let mut data = encode_event(&event(1, 1, "ls", 0)).unwrap();
    data.extend_from_slice(&[1, 2, 3]);
    assert_eq!(load_osh_events(&data), Err(DecodeError::Truncated));
}

#[test]
fn garbage_payload_is_malformed() {
    let mut data = 3u64.to_le_bytes().to_vec();
    data.extend_from_slice(&[0xc1, 0xc1, 0xc1]);
    assert_eq!(load_osh_events(&data), Err(DecodeError::Malformed));
}

#[test]
fn binary_logs_load_and_merge() {
    let mut first = BinaryWriter::new(Vec::new());
    first.write(event(1, 0, "a1", 0)).unwrap();
    first.write(event(5, 0, "a5", 0)).unwrap();
    first.flush().unwrap();
    let mut second = BinaryWriter::new(Vec::new());
    second.write(event(3, 0, "b3", 0)).unwrap();
    let datas = vec![first.into_inner(), second.into_inner()];
    let merged = load_binary_logs(&datas, &EventFilter::new(None)).unwrap();
    let commands: Vec<&str> = merged.iter().map(|e| e.command.as_str()).collect();
    assert_eq!(commands, vec!["a5", "b3", "a1"]);

    let filtered = load_binary_logs(&datas, &EventFilter::new(Some("other".to_string()))).unwrap();
    assert!(filtered.is_empty());
}

#[test]
fn streamed_chunks_decode_like_the_whole_log() {
    let records: Vec<Event> = (0..20).map(|i| event(i * 100, i, &format!("command number {i}"), 0)).collect();
    let bytes = encode_events(&records).unwrap();
    for size in [1usize, 3, 7, 8, 9, 64, bytes.len()] {
        let mut decoder = FrameDecoder::new();
        let mut out = Vec::new();
        for chunk in bytes.chunks(size) {
            out.extend(decoder.feed(chunk).unwrap());
        }
        assert_eq!(decoder.finish(), Ok(()));
        assert_eq!(out, records);
    }
}

#[test]
fn streamed_log_cut_inside_a_frame_is_truncated() {
    let bytes = encode_events(&[event(1, 1, "ls", 0), event(2, 2, "pwd", 0)]).unwrap();
    let mut decoder = FrameDecoder::new();
    let out = decoder.feed(&bytes[..bytes.len() - 3]).unwrap();
    assert_eq!(out.len(), 1);
    assert_eq!(decoder.finish(), Err(DecodeError::Truncated));

    let mut header_only = FrameDecoder::new();
    assert_eq!(header_only.feed(&[5, 0, 0]).unwrap(), vec![]);
    assert_eq!(header_only.finish(), Err(DecodeError::Truncated));
}

#[test]
fn streamed_garbage_frame_is_malformed() {
    let mut data = encode_event(&event(1, 1, "ls", 0)).unwrap();
    data.extend_from_slice(&2u64.to_le_bytes());
    data.extend_from_slice(&[0xc1, 0xc1]);
    let mut decoder = FrameDecoder::new();
    assert_eq!(decoder.feed(&data), Err(DecodeError::Malformed));
    assert_eq!(decoder.finish(), Err(DecodeError::Malformed));
}

use svmgr::log::codec::{escape, unescape, DeserializeError, LogEntry};
use svmgr::log::timestamp::Timestamp;

fn stamp() -> Timestamp {
    Timestamp::new(2024, 1, 2, 3, 4, 5, 123456).unwrap()
}

fn frame_of(ts: &[u8], len: [u8; 2], payload: &[u8]) -> Vec<u8> {
    let mut v = vec![0xFF, 0xFF, 0xFF, 0xFF];
    v.extend_from_slice(ts);
    v.extend_from_slice(&len);
    v.extend_from_slice(payload);
    v.extend_from_slice(&[0, 0, 0, 0]);
    v
}

#[test]
fn hello_frame_bytes() {
    let entry = LogEntry::with_timestamp(stamp(), b"hello");
    let mut out = Vec::new();
    entry.serialize(&mut out);
    let mut expected = vec![0xFF, 0xFF, 0xFF, 0xFF];
    expected.extend_from_slice(b"2024-01-02 03:04:05.123456");
    expected.extend_from_slice(&[0x05, 0x00, 0x68, 0x65, 0x6C, 0x6C, 0x6F, 0x00, 0x00, 0x00, 0x00]);
    assert_eq!(out, expected);
    let back = LogEntry::deserialize(&out).unwrap();
    assert_eq!(back.as_slice(), b"hello");
    assert_eq!(back.timestamp, stamp());
}

#[test]
fn literal_ff_is_escaped() {
    let entry = LogEntry::with_timestamp(stamp(), &[0xAA, 0xFF, 0xBB]);
    let mut out = Vec::new();
    entry.serialize(&mut out);
    assert_eq!(&out[30..32], &[0x03, 0x00]);
    assert_eq!(&out[32..36], &[0xAA, 0x00, 0xFF, 0xBB]);
    assert_eq!(&out[36..], &[0, 0, 0, 0]);
    let back = LogEntry::deserialize(&out).unwrap();
    assert_eq!(back.as_slice(), &[0xAA, 0xFF, 0xBB]);
}

#[test]
fn declared_length_longer_than_payload() {
    let f = frame_of(b"2024-01-02 03:04:05.123456", [10, 0], &[1, 2, 3, 4]);
    assert_eq!(LogEntry::deserialize(&f).unwrap_err(), DeserializeError::NotEnoughInput);
}

#[test]
fn round_trip_various_payloads() {
    let payloads: Vec<Vec<u8>> = vec![
        vec![],
        vec![0x00],
        vec![0xFF, 0xFF, 0xFF, 0xFF],
        vec![0x00, 0x00, 0x00, 0x00, 0x00],
        (0..=255u8).collect(),
        vec![0xFF; 4096],
    ];
    let ts = Timestamp::new(9999, 12, 31, 23, 59, 59, 999999).unwrap();
    for p in payloads {
        let entry = LogEntry::with_timestamp(ts, &p);
        let mut out = Vec::new();
        entry.serialize(&mut out);
        let back = LogEntry::deserialize(&out).unwrap();
        assert_eq!(back, entry);
    }
}

#[test]
fn escape_then_unescape() {
    let input = vec![0x00, 0x01, 0xFF, 0xF0, 0x00, 0xFE];
    let mut esc = Vec::new();
    escape(&input, &mut esc);
    assert_eq!(esc, vec![0x00, 0xF0, 0x01, 0x00, 0xFF, 0xF0, 0x00, 0xF0, 0xFE]);
    let mut back = Vec::new();
    assert!(unescape(&esc, &mut back).is_ok());
    assert_eq!(back, input);
}

#[test]
fn unescape_rejects_bad_escape() {
    let mut out = Vec::new();
    assert_eq!(unescape(&[0x01, 0x00, 0x12], &mut out), Err(DeserializeError::InvalidEscape));
    let mut out = Vec::new();
    assert_eq!(unescape(&[0x01, 0x00], &mut out), Err(DeserializeError::InvalidEscape));
}

#[test]
fn missing_start_marker() {
    let mut f = frame_of(b"2024-01-02 03:04:05.123456", [1, 0], b"a");
    f[0] = 0xFE;
    assert_eq!(LogEntry::deserialize(&f).unwrap_err(), DeserializeError::MissingSynchronizeStart);
    assert_eq!(LogEntry::deserialize(&[0xFF, 0xFF]).unwrap_err(), DeserializeError::MissingSynchronizeStart);
}

#[test]
fn missing_end_marker() {
    let mut f = frame_of(b"2024-01-02 03:04:05.123456", [1, 0], b"a");
    let n = f.len();
    f[n - 1] = 1;
    assert_eq!(LogEntry::deserialize(&f).unwrap_err(), DeserializeError::MissingSynchronizeEnd);
    assert_eq!(LogEntry::deserialize(&[0xFF, 0xFF, 0xFF, 0xFF]).unwrap_err(), DeserializeError::MissingSynchronizeEnd);
}

#[test]
fn too_short_for_header() {
    let f = frame_of(b"2024-01-02", [1, 0], &[]);
    assert_eq!(LogEntry::deserialize(&f).unwrap_err(), DeserializeError::NotEnoughInput);
}

#[test]
fn timestamp_not_utf8() {
    let mut ts = *b"2024-01-02 03:04:05.123456";
    ts[3] = 0xC3;
    let f = frame_of(&ts, [1, 0], b"a");
    assert_eq!(LogEntry::deserialize(&f).unwrap_err(), DeserializeError::Utf8Error);
}

#[test]
fn timestamp_utf8_but_malformed() {
    let mut ts = *b"2024-01-02 03:04:05.123456";
    ts[2] = 0xC3;
    ts[3] = 0xA9;
    let f = frame_of(&ts, [1, 0], b"a");
    assert_eq!(LogEntry::deserialize(&f).unwrap_err(), DeserializeError::InvalidTimestamp);
    let f = frame_of(b"2023-02-29 03:04:05.123456", [1, 0], b"a");
    assert_eq!(LogEntry::deserialize(&f).unwrap_err(), DeserializeError::InvalidTimestamp);
    let f = frame_of(b"2024-01-02T03:04:05.123456", [1, 0], b"a");
    assert_eq!(LogEntry::deserialize(&f).unwrap_err(), DeserializeError::InvalidTimestamp);
}

#[test]
fn too_much_input() {
    let f = frame_of(b"2024-01-02 03:04:05.123456", [1, 0], b"abc");
    assert_eq!(LogEntry::deserialize(&f).unwrap_err(), DeserializeError::TooMuchInput);
    let f = frame_of(b"2024-01-02 03:04:05.123456", [2, 0], &[0x41, 0x42, 0x43]);
    assert_eq!(LogEntry::deserialize(&f).unwrap_err(), DeserializeError::TooMuchInput);
}

#[test]
fn invalid_escape_in_frame() {
    let f = frame_of(b"2024-01-02 03:04:05.123456", [2, 0], &[0x00, 0x41, 0x42]);
    assert_eq!(LogEntry::deserialize(&f).unwrap_err(), DeserializeError::InvalidEscape);
}

#[test]
fn unescaped_length_matches() {
    let f = frame_of(b"2024-01-02 03:04:05.123456", [2, 0], &[0x00, 0xF0, 0x41]);
    let f2 = [&f[..32], &[0x00, 0xF0, 0x00, 0xFF][..], &f[35..]].concat();
    let e = LogEntry::deserialize(&f2).unwrap();
    assert_eq!(e.as_slice(), &[0x00, 0xFF]);
}

#[test]
fn calendar_checks() {
    assert!(Timestamp::new(2024, 2, 29, 0, 0, 0, 0).is_some());
    assert!(Timestamp::new(2023, 2, 29, 0, 0, 0, 0).is_none());
    assert!(Timestamp::new(1900, 2, 29, 0, 0, 0, 0).is_none());
    assert!(Timestamp::new(2000, 2, 29, 0, 0, 0, 0).is_some());
    assert!(Timestamp::new(2024, 4, 31, 0, 0, 0, 0).is_none());
    assert!(Timestamp::new(2024, 13, 1, 0, 0, 0, 0).is_none());
    assert!(Timestamp::new(2024, 1, 1, 24, 0, 0, 0).is_none());
    assert!(Timestamp::new(2024, 1, 1, 0, 0, 0, 1_000_000).is_none());
    assert!(Timestamp::new(10000, 1, 1, 0, 0, 0, 0).is_none());
}

#[test]
fn timestamp_text_round_trip() {
    let t = Timestamp::new(7, 11, 30, 9, 8, 7, 6).unwrap();
    let mut out = Vec::new();
    t.write_to(&mut out);
    assert_eq!(out, b"0007-11-30 09:08:07.000006".to_vec());
    assert_eq!(Timestamp::parse(&out), Some(t));
}

#[test]
fn clock_gives_valid_entry() {
    let e = LogEntry::new(b"x").unwrap();
    assert!(e.timestamp.year >= 2000);
    assert!(e.timestamp.micro < 1_000_000);
    let mut out = Vec::new();
    e.serialize(&mut out);
    assert_eq!(LogEntry::deserialize(&out).unwrap(), e.to_owned());
}

#[test]
fn clock_fields_to_timestamp() {
    assert_eq!(
        Timestamp::from_clock(2024, 1, 2, 3, 4, 5, 123_456_789),
        Timestamp::new(2024, 1, 2, 3, 4, 5, 123_456)
    );
    assert_eq!(
        Timestamp::from_clock(2016, 12, 31, 23, 59, 59, 1_999_999_999),
        Timestamp::new(2016, 12, 31, 23, 59, 59, 999_999)
    );
    assert_eq!(Timestamp::from_clock(0, 1, 1, 0, 0, 0, 0), None);
    assert_eq!(Timestamp::from_clock(-5, 1, 1, 0, 0, 0, 0), None);
    assert_eq!(Timestamp::from_clock(10000, 1, 1, 0, 0, 0, 0), None);
    assert_eq!(Timestamp::from_clock(2023, 2, 29, 0, 0, 0, 0), None);
}

#[test]
fn oversized_payload_gives_no_entry() {
    assert!(LogEntry::new(&vec![0x41u8; 4097]).is_none());
    assert!(LogEntry::new(&vec![0x41u8; 4096]).is_some());
}

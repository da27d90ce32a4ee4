use svmgr::log::codec::{DeserializeError, LogEntry};
use svmgr::log::reader::{DrainAction, LogReader, ReadEntryError, BUFFER_CAPACITY};
use svmgr::log::timestamp::Timestamp;

fn frame(payload: &[u8], second: u32) -> Vec<u8> {
    let ts = Timestamp::new(2024, 1, 2, 3, 4, second, 123456).unwrap();
    let mut out = Vec::new();
    LogEntry::with_timestamp(ts, payload).serialize(&mut out);
    out
}

/// Feeds `chunks` one after the other (each split further to fit the
/// buffer) and collects every outcome other than a request for input.
fn decode(chunks: &[&[u8]]) -> Vec<Result<Vec<u8>, DeserializeError>> {
    let mut reader = LogReader::new();
    let mut out = Vec::new();
    for chunk in chunks {
        let mut rest: &[u8] = chunk;
        loop {
            match reader.next_entry() {
                Ok(e) => out.push(Ok(e.as_slice().to_vec())),
                Err(ReadEntryError::DeserializeError(err)) => out.push(Err(err)),
                Err(ReadEntryError::NeedMoreInput) => {
                    if rest.is_empty() {
                        break;
                    }
                    let n = rest.len().min(reader.free_space());
                    reader.feed(&rest[..n]);
                    rest = &rest[n..];
                }
            }
        }
    }
    out
}

#[test]
fn corrupted_frame_then_valid_frame() {
    let mut bad = frame(b"broken", 1);
    bad[30] = 7; // declared length differs from the region, so the payload is unescaped
    bad[33] = 0x00; // and holds an invalid escape
    bad[34] = 0x41;
    let good = frame(b"fine", 2);
    let stream = [bad, good].concat();
    let got = decode(&[&stream]);
    assert_eq!(got.len(), 2);
    assert_eq!(got[0], Err(DeserializeError::InvalidEscape));
    assert_eq!(got[1], Ok(b"fine".to_vec()));
}

#[test]
fn wrong_length_field_then_valid_frame() {
    let mut bad = frame(b"longer than declared", 1);
    bad[30] = 2;
    let good = frame(b"kept", 2);
    let stream = [bad, good].concat();
    let got = decode(&[&stream]);
    assert_eq!(got, vec![Err(DeserializeError::TooMuchInput), Ok(b"kept".to_vec())]);
}

#[test]
fn garbage_before_frame_is_skipped() {
    let good = frame(b"after noise", 3);
    let stream = [&[1u8, 2, 0xFF, 0xFF, 3][..], &good[..]].concat();
    assert_eq!(decode(&[&stream]), vec![Ok(b"after noise".to_vec())]);
}

#[test]
fn split_reads_give_same_entries() {
    let stream = [frame(b"one", 1), frame(&[0xFF, 0x00, 0x12], 2), frame(b"three\nlines\n", 3)].concat();
    let whole = decode(&[&stream]);
    assert_eq!(whole.len(), 3);
    for cut in 1..stream.len() {
        let (a, b) = stream.split_at(cut);
        assert_eq!(decode(&[a, b]), whole, "split at {cut}");
    }
    let bytes: Vec<&[u8]> = stream.chunks(1).collect();
    assert_eq!(decode(&bytes), whole);
}

#[test]
fn start_marker_without_end_is_dropped_when_buffer_full() {
    let mut stream = vec![0xFF, 0xFF, 0xFF, 0xFF];
    stream.extend(std::iter::repeat(0x41u8).take(BUFFER_CAPACITY));
    let good = frame(b"recovered", 4);
    stream.extend_from_slice(&good);
    assert_eq!(decode(&[&stream]), vec![Ok(b"recovered".to_vec())]);
}

#[test]
fn end_of_source_sets_flag_and_counts_bytes() {
    let f = frame(b"abc", 5);
    let mut reader = LogReader::new();
    reader.begin_pass();
    assert_eq!(reader.next_entry().unwrap_err(), ReadEntryError::NeedMoreInput);
    reader.feed(&f[..10]);
    assert_eq!(reader.next_entry().unwrap_err(), ReadEntryError::NeedMoreInput);
    reader.feed(&[]);
    assert!(reader.incomplete);
    reader.feed(&f[10..]);
    assert_eq!(reader.next_entry().unwrap().as_slice(), b"abc");
    assert_eq!(reader.read_total, f.len() as u64);
    assert_eq!(reader.next_entry().unwrap_err(), ReadEntryError::NeedMoreInput);
    assert!(reader.buffer.is_empty());
}

#[test]
fn reset_forgets_unread_bytes() {
    let mut reader = LogReader::new();
    let old = frame(b"old", 1);
    reader.feed(&old[..old.len() - 3]);
    assert_eq!(reader.next_entry().unwrap_err(), ReadEntryError::NeedMoreInput);
    reader.reset();
    let new = frame(b"new", 2);
    reader.feed(&new);
    assert_eq!(reader.next_entry().unwrap().as_slice(), b"new");
}

#[test]
fn shift_buffer_discards_prefix() {
    let mut reader = LogReader::new();
    reader.feed(&[1, 2, 3, 4, 5]);
    reader.shift_buffer(2);
    assert_eq!(reader.buffer, vec![3, 4, 5]);
    reader.shift_buffer(7);
    assert!(reader.buffer.is_empty());
}

#[test]
fn drain_steps() {
    let f = frame(b"entry", 6);
    let bad = {
        let mut b = frame(b"broken", 7);
        b[30] = 2;
        b
    };
    let mut reader = LogReader::new();
    reader.begin_pass();
    let r = reader.next_entry();
    assert!(matches!(reader.drain_action(r), DrainAction::Read(n) if n == BUFFER_CAPACITY));
    reader.feed(&[bad, f.clone()].concat());
    let r = reader.next_entry();
    assert!(matches!(reader.drain_action(r), DrainAction::Skip(DeserializeError::TooMuchInput)));
    let r = reader.next_entry();
    match reader.drain_action(r) {
        DrainAction::Publish(e) => assert_eq!(e.as_slice(), b"entry"),
        other => panic!("unexpected {other:?}"),
    }
    reader.feed(&[]);
    let r = reader.next_entry();
    let total = reader.read_total;
    assert!(matches!(reader.drain_action(r), DrainAction::Done(n) if n == total));
    assert!(total > 0);
}

use crate::log::codec::{
    decode_frame, escaped, frame, lemma_decode_frame, lemma_escaped_len_bound,
    lemma_escaped_no_zero_pair, lemma_layout_ascii, DeserializeError, LogEntry, DATE_LEN,
    MAX_ENTRY_SIZE,
};
use crate::log::timestamp::{formatted, lemma_parse_formatted, Timestamp};
use vstd::prelude::*;

verus! {

/// Room for the largest frame: both markers, the timestamp, the length and a
/// payload whose every byte was escaped.
pub const BUFFER_CAPACITY: usize = 4 + DATE_LEN + 2 + MAX_ENTRY_SIZE * 2 + 4;

/// Why `next_entry` gave no entry.
#[derive(Debug, Clone, Copy, PartialEq, Eq, Structural)]
pub enum ReadEntryError {
    /// a complete frame was found but does not decode
    DeserializeError(DeserializeError),
    /// the buffered bytes hold no complete frame: feed more bytes
    NeedMoreInput,
}

/// Four bytes equal to `m` start at `i` in `b`.
pub open spec fn marker_at(b: Seq<u8>, m: u8, i: int) -> bool {
    0 <= i && i + 4 <= b.len() && b[i] == m && b[i + 1] == m && b[i + 2] == m && b[i + 3] == m
}

/// The first position from `from` on where four bytes equal to `m` start.
pub open spec fn find_marker(b: Seq<u8>, m: u8, from: int) -> Option<int>
    decreases b.len() - from,
{
    if from < 0 || from + 4 > b.len() {
        None
    } else if marker_at(b, m, from) {
        Some(from)
    } else {
        find_marker(b, m, from + 1)
    }
}

/// Number of bytes equal to `m` at the end of `b`.
pub open spec fn trailing(b: Seq<u8>, m: u8) -> nat
    decreases b.len(),
{
    if b.len() == 0 || b.last() != m {
        0
    } else {
        1 + trailing(b.drop_last(), m)
    }
}

/// What one search for a frame does to the buffered bytes `b`: the bytes
/// kept, and the length of the frame that starts them, if one was found.
///
/// Bytes before the first start marker are dropped; without a start marker
/// only a trailing run of `0xFF` (a possible partial marker) is kept. A start
/// marker with no end marker within a full buffer is dropped, and the search
/// begins again after it.
pub open spec fn scan(b: Seq<u8>) -> (Seq<u8>, Option<nat>)
    decreases b.len(),
    via scan_decreases
{
    match find_marker(b, 0xFF, 0) {
        None => (b.subrange(b.len() - trailing(b, 0xFF), b.len() as int), None),
        Some(i) => {
            let c = b.subrange(i, b.len() as int);
            match find_marker(c, 0x00, 0) {
                Some(j) => (c, Some((j + 4) as nat)),
                None => if c.len() >= BUFFER_CAPACITY {
                    scan(c.subrange(4, c.len() as int))
                } else {
                    (c, None)
                },
            }
        },
    }
}

#[via_fn]
proof fn scan_decreases(b: Seq<u8>) {
    if let Some(i) = find_marker(b, 0xFF, 0) {
        lemma_find_marker(b, 0xFF, 0);
    }
}

proof fn lemma_find_marker(b: Seq<u8>, m: u8, from: int)
    requires
        from >= 0,
    ensures
        match find_marker(b, m, from) {
            Some(i) => from <= i && marker_at(b, m, i) && forall|k: int|
                from <= k < i ==> !marker_at(b, m, k),
            None => forall|k: int| from <= k ==> !marker_at(b, m, k),
        },
    decreases b.len() - from,
{
    if from + 4 <= b.len() && !marker_at(b, m, from) {
        lemma_find_marker(b, m, from + 1);
    }
}

proof fn lemma_trailing(b: Seq<u8>, m: u8)
    ensures
        trailing(b, m) <= b.len(),
        forall|k: int| b.len() - trailing(b, m) <= k < b.len() ==> b[k] == m,
    decreases b.len(),
{
    if b.len() > 0 && b.last() == m {
        let p = b.drop_last();
        lemma_trailing(p, m);
        assert forall|k: int| b.len() - trailing(b, m) <= k < b.len() implies b[k] == m by {
            if k < b.len() - 1 {
                assert(p[k] == b[k]);
            }
        }
    }
}

proof fn lemma_find_marker_first(b: Seq<u8>, m: u8, from: int, j: int)
    requires
        0 <= from <= j,
        marker_at(b, m, j),
        forall|k: int| from <= k < j ==> !marker_at(b, m, k),
    ensures
        find_marker(b, m, from) == Some(j),
    decreases j - from,
{
    if from < j {
        lemma_find_marker_first(b, m, from + 1, j);
    }
}

proof fn lemma_find_marker_none(b: Seq<u8>, m: u8, from: int)
    requires
        0 <= from,
        forall|k: int| from <= k ==> !marker_at(b, m, k),
    ensures
        find_marker(b, m, from) is None,
    decreases b.len() - from,
{
    if from + 4 <= b.len() {
        lemma_find_marker_none(b, m, from + 1);
    }
}

proof fn lemma_trailing_all(b: Seq<u8>, m: u8)
    requires
        forall|i: int| 0 <= i < b.len() ==> b[i] == m,
    ensures
        trailing(b, m) == b.len(),
    decreases b.len(),
{
    if b.len() > 0 {
        let p = b.drop_last();
        assert forall|i: int| 0 <= i < p.len() implies p[i] == m by {
            assert(p[i] == b[i]);
        }
        lemma_trailing_all(p, m);
    }
}

/// Markers in the frame of an entry with a non-empty payload: the start
/// marker at its start, and no end marker before the one that ends it.
proof fn lemma_frame_markers(t: Timestamp, p: Seq<u8>)
    requires
        t.valid(),
        1 <= p.len() <= MAX_ENTRY_SIZE,
    ensures
        ({
            let f = frame(t, p);
            &&& f.len() <= BUFFER_CAPACITY
            &&& marker_at(f, 0xFF, 0)
            &&& marker_at(f, 0x00, f.len() - 4)
            &&& forall|k: int| 0 <= k < f.len() - 4 ==> !marker_at(f, 0x00, k)
        }),
{
    let f = frame(t, p);
    let ts = formatted(t);
    let e = escaped(p);
    lemma_parse_formatted(t);
    lemma_layout_ascii(ts);
    lemma_escaped_no_zero_pair(p);
    lemma_escaped_len_bound(p);
    let n = f.len() as int;
    let l = p.len();
    assert(ts.len() == 26);
    assert(n == 32 + e.len() + 4);
    assert forall|k: int| 0 <= k < 4 implies f[k] == 0xFF by {}
    assert forall|k: int| 4 <= k < 30 implies f[k] == ts[k - 4] by {}
    assert(f[30] == (l % 256) as u8);
    assert(f[31] == (l / 256) as u8);
    assert forall|k: int| 32 <= k < 32 + e.len() implies f[k] == e[k - 32] by {}
    assert forall|k: int| n - 4 <= k < n implies f[k] == 0x00 by {}
    assert forall|k: int| 0 <= k < n - 4 implies !marker_at(f, 0x00, k) by {
        if k < 4 {
            assert(f[k] == 0xFF);
        } else if k < 30 {
            assert(f[k] == ts[k - 4]);
        } else if k == 30 {
            if f[30] == 0 {
                assert(l / 256 >= 1);
            }
        } else if k == 31 {
            if f[31] == 0 && f[32] == 0 {
                assert(e[0] == 0);
                assert(f[33] == e[1]);
            }
        } else {
            let i = k - 32;
            if e[i] == 0 {
                assert(f[k + 1] == e[i + 1]);
            }
        }
    }
}

/// A complete frame at the start of the buffered bytes is found as it
/// stands, whatever bytes follow it, and decodes to its entry. With the
/// lemma below, this is why the entries decoded from a stream do not depend
/// on how its bytes were split across reads.
pub proof fn lemma_frame_found(t: Timestamp, p: Seq<u8>, rest: Seq<u8>)
    requires
        t.valid(),
        1 <= p.len() <= MAX_ENTRY_SIZE,
    ensures
        ({
            let f = frame(t, p);
            let b = f + rest;
            &&& scan(b) == (b, Some(f.len()))
            &&& decode_frame(b.subrange(0, f.len() as int)) == Ok::<
                (Timestamp, Seq<u8>),
                DeserializeError,
            >((t, p))
        }),
{
    let f = frame(t, p);
    let b = f + rest;
    let n = f.len() as int;
    lemma_frame_markers(t, p);
    assert forall|k: int| 0 <= k <= n - 4 implies marker_at(b, 0x00, k) == marker_at(f, 0x00, k) by {
        assert(b[k] == f[k] && b[k + 1] == f[k + 1] && b[k + 2] == f[k + 2] && b[k + 3] == f[k + 3]);
    }
    assert(marker_at(b, 0xFF, 0)) by {
        assert(b[0] == f[0] && b[1] == f[1] && b[2] == f[2] && b[3] == f[3]);
    }
    assert(find_marker(b, 0xFF, 0) == Some(0int));
    assert(b.subrange(0, b.len() as int) =~= b);
    lemma_find_marker_first(b, 0x00, 0, n - 4);
    assert(b.subrange(0, n) =~= f);
    lemma_decode_frame(t, p);
}

/// `c` starts with a start marker, and its first end marker ends it.
pub open spec fn delimited(c: Seq<u8>) -> bool {
    &&& marker_at(c, 0xFF, 0)
    &&& marker_at(c, 0x00, c.len() - 4)
    &&& forall|k: int| 0 <= k < c.len() - 4 ==> !marker_at(c, 0x00, k)
}

proof fn lemma_delimited_found(c: Seq<u8>, rest: Seq<u8>)
    requires
        delimited(c),
    ensures
        scan(c + rest) == (c + rest, Some(c.len())),
        (c + rest).subrange(0, c.len() as int) == c,
        (c + rest).subrange(c.len() as int, (c + rest).len() as int) == rest,
{
    let b = c + rest;
    let n = c.len() as int;
    assert forall|k: int| 0 <= k <= n - 4 implies marker_at(b, 0x00, k) == marker_at(c, 0x00, k) by {
        assert(b[k] == c[k] && b[k + 1] == c[k + 1] && b[k + 2] == c[k + 2] && b[k + 3] == c[k + 3]);
    }
    assert(marker_at(b, 0xFF, 0)) by {
        assert(b[0] == c[0] && b[1] == c[1] && b[2] == c[2] && b[3] == c[3]);
    }
    assert(find_marker(b, 0xFF, 0) == Some(0int));
    assert(b.subrange(0, b.len() as int) =~= b);
    lemma_find_marker_first(b, 0x00, 0, n - 4);
    assert(b.subrange(0, n) =~= c);
    assert(b.subrange(n, b.len() as int) =~= rest);
}

/// Resynchronization: where a frame that is delimited by its markers but
/// does not decode is followed by a valid frame, the first search reports
/// the broken frame's error and marks exactly its bytes for discarding, and
/// the search after that discard finds the valid frame and decodes it.
pub proof fn lemma_resync_after_corrupt(c: Seq<u8>, t: Timestamp, p: Seq<u8>, rest: Seq<u8>)
    requires
        delimited(c),
        c.len() <= BUFFER_CAPACITY,
        decode_frame(c) is Err,
        t.valid(),
        1 <= p.len() <= MAX_ENTRY_SIZE,
    ensures
        ({
            let f = frame(t, p);
            let b = c + (f + rest);
            let after = b.subrange(c.len() as int, b.len() as int);
            &&& scan(b) == (b, Some(c.len()))
            &&& decode_frame(b.subrange(0, c.len() as int)) == decode_frame(c)
            &&& after == f + rest
            &&& scan(after) == (after, Some(f.len()))
            &&& decode_frame(after.subrange(0, f.len() as int)) == Ok::<
                (Timestamp, Seq<u8>),
                DeserializeError,
            >((t, p))
        }),
{
    let f = frame(t, p);
    lemma_delimited_found(c, f + rest);
    lemma_frame_found(t, p, rest);
}

/// The bytes of a frame that has not arrived whole are kept as they are,
/// and no entry is reported, until the rest of it is fed.
pub proof fn lemma_partial_frame_kept(t: Timestamp, p: Seq<u8>, k: int)
    requires
        t.valid(),
        1 <= p.len() <= MAX_ENTRY_SIZE,
        0 <= k < frame(t, p).len(),
    ensures
        scan(frame(t, p).subrange(0, k)) == (frame(t, p).subrange(0, k), None::<nat>),
{
    let f = frame(t, p);
    let q = f.subrange(0, k);
    lemma_frame_markers(t, p);
    if k < 4 {
        assert forall|j: int| 0 <= j implies !marker_at(q, 0xFF, j) by {}
        lemma_find_marker_none(q, 0xFF, 0);
        assert forall|i: int| 0 <= i < q.len() implies q[i] == 0xFF by {
            assert(q[i] == f[i]);
        }
        lemma_trailing_all(q, 0xFF);
        assert(q.subrange(0, k) =~= q);
    } else {
        assert(marker_at(q, 0xFF, 0)) by {
            assert(q[0] == f[0] && q[1] == f[1] && q[2] == f[2] && q[3] == f[3]);
        }
        assert(find_marker(q, 0xFF, 0) == Some(0int));
        assert(q.subrange(0, q.len() as int) =~= q);
        assert forall|j: int| 0 <= j implies !marker_at(q, 0x00, j) by {
            if marker_at(q, 0x00, j) {
                assert(q[j] == f[j] && q[j + 1] == f[j + 1] && q[j + 2] == f[j + 2] && q[j + 3]
                    == f[j + 3]);
                assert(marker_at(f, 0x00, j));
            }
        }
        lemma_find_marker_none(q, 0x00, 0);
    }
}

/// The bytes of the frames of `es`, one after another.
pub open spec fn stream(es: Seq<(Timestamp, Seq<u8>)>) -> Seq<u8>
    decreases es.len(),
{
    if es.len() == 0 {
        Seq::empty()
    } else {
        frame(es[0].0, es[0].1) + stream(es.drop_first())
    }
}

/// Every entry of `es` has a valid timestamp and a payload of 1 to 4096 bytes.
pub open spec fn streamable(es: Seq<(Timestamp, Seq<u8>)>) -> bool {
    forall|i: int|
        0 <= i < es.len() ==> (#[trigger] es[i]).0.valid() && 1 <= es[i].1.len() <= MAX_ENTRY_SIZE
}

/// Partial-read robustness: while the buffered bytes are any prefix of a
/// stream of valid frames, a search either reports nothing and keeps every
/// byte, which happens only while the first frame is incomplete, or reports
/// exactly the stream's first entry and leaves, after its discard, a prefix of
/// the rest of the stream. However the stream is split into reads, the reader
/// therefore yields its entries in order, and nothing else. After `reset`
/// the buffer is empty, so this holds of a new file from its first byte on.
pub proof fn lemma_stream_prefix(es: Seq<(Timestamp, Seq<u8>)>, k: int)
    requires
        streamable(es),
        0 <= k <= stream(es).len(),
    ensures
        ({
            let q = stream(es).subrange(0, k);
            &&& scan(q).0 == q
            &&& match scan(q).1 {
                None => es.len() == 0 || k < frame(es[0].0, es[0].1).len(),
                Some(n) => {
                    &&& es.len() > 0
                    &&& n == frame(es[0].0, es[0].1).len()
                    &&& decode_frame(q.subrange(0, n as int)) == Ok::<
                        (Timestamp, Seq<u8>),
                        DeserializeError,
                    >(es[0])
                    &&& q.subrange(n as int, k) == stream(es.drop_first()).subrange(0, k - n)
                },
            }
        }),
{
    let q = stream(es).subrange(0, k);
    if es.len() == 0 {
        assert(q =~= Seq::<u8>::empty());
        assert(find_marker(q, 0xFF, 0) is None);
        assert(q.subrange(0, 0) =~= q);
    } else {
        let t = es[0].0;
        let p = es[0].1;
        assert(es[0].0.valid() && 1 <= es[0].1.len() <= MAX_ENTRY_SIZE);
        let f = frame(t, p);
        let r = stream(es.drop_first());
        assert(stream(es) == f + r);
        if k < f.len() {
            assert(q =~= f.subrange(0, k));
            lemma_partial_frame_kept(t, p, k);
        } else {
            let tail = r.subrange(0, k - f.len());
            assert(q =~= f + tail);
            lemma_frame_found(t, p, tail);
            assert(q.subrange(f.len() as int, k) =~= tail);
        }
    }
}

/// What a drain of the available bytes does after one call of `next_entry`.
#[derive(Debug)]
pub enum DrainAction {
    /// hand the entry on
    Publish(LogEntry),
    /// a frame did not decode: skip it, the next search starts after it
    Skip(DeserializeError),
    /// read at most this many bytes from the source and feed them
    Read(usize),
    /// the source has ended for now: the pass consumed this many bytes
    Done(u64),
}

/// Incremental decoder of a byte stream of frames.
///
/// It holds the bytes fed to it that no decoded frame has used yet, at most
/// `BUFFER_CAPACITY` of them.
pub struct LogReader {
    /// bytes received and not yet discarded
    pub buffer: Vec<u8>,
    /// length of the frame returned last, discarded by the next search
    pub last_len: usize,
    /// the source ended before a synchronization point was found
    pub incomplete: bool,
    /// total bytes fed since the last `begin_pass`
    pub read_total: u64,
    /// no end marker starts in the buffer before this offset, so the next
    /// search for one starts here (the last 3 bytes of a search that failed
    /// are searched again, as a marker may continue past them)
    pub scanned: usize,
}

impl LogReader {
    /// The buffer is within its capacity and the pending discard within it.
    pub open spec fn wf(&self) -> bool {
        &&& self.buffer@.len() <= BUFFER_CAPACITY
        &&& self.last_len <= self.buffer@.len()
        &&& self.last_len == 0 || self.scanned == 0
        &&& self.scanned == 0 || self.scanned + 3 <= self.buffer@.len()
        &&& forall|k: int| 0 <= k < self.scanned ==> !marker_at(self.buffer@, 0x00, k)
    }

    /// The buffered bytes after the pending discard.
    pub open spec fn pending(&self) -> Seq<u8> {
        self.buffer@.subrange(self.last_len as int, self.buffer@.len() as int)
    }

    /// A reader with nothing buffered.
    pub fn new() -> (r: LogReader)
        ensures
            r.wf(),
            r.buffer@.len() == 0,
            r.last_len == 0,
            !r.incomplete,
            r.read_total == 0,
    {
        LogReader { buffer: Vec::new(), last_len: 0, incomplete: false, read_total: 0, scanned: 0 }
    }

    /// Discards `amount` bytes from the start of the buffer; the search
    /// offset starts over unless nothing was discarded.
    pub fn shift_buffer(&mut self, amount: usize)
        ensures
            final(self).scanned == if amount == 0 {
                old(self).scanned
            } else {
                0
            },
            final(self).buffer@ == if amount >= old(self).buffer@.len() {
                Seq::<u8>::empty()
            } else {
                old(self).buffer@.subrange(amount as int, old(self).buffer@.len() as int)
            },
            final(self).last_len == old(self).last_len,
            final(self).incomplete == old(self).incomplete,
            final(self).read_total == old(self).read_total,
    {
        if amount == 0 {
            assert(self.buffer@.subrange(0, self.buffer@.len() as int) =~= self.buffer@);
            return;
        }
        self.scanned = 0;
        let n = self.buffer.len();
        if amount >= n {
            self.buffer.clear();
            return;
        }
        let mut i: usize = 0;
        while i < n - amount
            invariant
                amount < n,
                n == old(self).buffer@.len(),
                self.buffer@.len() == n,
                i <= n - amount,
                forall|k: int| 0 <= k < i ==> self.buffer@[k] == old(self).buffer@[k + amount],
                forall|k: int| i + amount <= k < n ==> self.buffer@[k] == old(self).buffer@[k],
                self.last_len == old(self).last_len,
                self.incomplete == old(self).incomplete,
                self.read_total == old(self).read_total,
                self.scanned == 0,
            decreases n - amount - i,
        {
            let b = self.buffer[i + amount];
            self.buffer.set(i, b);
            i = i + 1;
        }
        self.buffer.truncate(n - amount);
        assert(self.buffer@ =~= old(self).buffer@.subrange(amount as int, n as int));
    }

    /// Bytes that can be fed before the buffer is full.
    pub fn free_space(&self) -> (r: usize)
        requires
            self.wf(),
        ensures
            r == BUFFER_CAPACITY - self.buffer@.len(),
    {
        BUFFER_CAPACITY - self.buffer.len()
    }

    /// Appends bytes read from the source; an empty `data` says that the
    /// source has ended for now.
    pub fn feed(&mut self, data: &[u8])
        requires
            old(self).wf(),
            old(self).buffer@.len() + data@.len() <= BUFFER_CAPACITY,
            old(self).read_total + data@.len() <= u64::MAX,
        ensures
            final(self).wf(),
            final(self).buffer@ == old(self).buffer@ + data@,
            final(self).last_len == old(self).last_len,
            final(self).incomplete == (old(self).incomplete || data@.len() == 0),
            final(self).read_total == old(self).read_total + data@.len(),
            final(self).scanned == old(self).scanned,
    {
        if data.len() == 0 {
            self.incomplete = true;
            assert(self.buffer@ =~= old(self).buffer@ + data@);
            return;
        }
        self.buffer.extend_from_slice(data);
        self.read_total = self.read_total + data.len() as u64;
        assert(self.buffer@ =~= old(self).buffer@ + data@);
        assert forall|k: int| 0 <= k < self.scanned implies !marker_at(self.buffer@, 0x00, k) by {
            assert(!marker_at(old(self).buffer@, 0x00, k));
            assert(self.buffer@[k] == old(self).buffer@[k]);
            assert(self.buffer@[k + 1] == old(self).buffer@[k + 1]);
            assert(self.buffer@[k + 2] == old(self).buffer@[k + 2]);
            assert(self.buffer@[k + 3] == old(self).buffer@[k + 3]);
        }
    }

    /// Starts a new pass over the source: clears the end flag and the byte
    /// count.
    pub fn begin_pass(&mut self)
        ensures
            final(self).buffer@ == old(self).buffer@,
            final(self).last_len == old(self).last_len,
            !final(self).incomplete,
            final(self).read_total == 0,
            final(self).scanned == old(self).scanned,
    {
        self.incomplete = false;
        self.read_total = 0;
    }

    /// Forgets everything buffered, as for a new source.
    pub fn reset(&mut self)
        ensures
            final(self).wf(),
            final(self).buffer@.len() == 0,
            final(self).last_len == 0,
            !final(self).incomplete,
            final(self).read_total == 0,
            final(self).scanned == 0,
    {
        self.buffer.clear();
        self.scanned = 0;
        self.last_len = 0;
        self.incomplete = false;
        self.read_total = 0;
    }
}

proof fn lemma_find_marker_skip(b: Seq<u8>, m: u8, from: int)
    requires
        0 <= from,
        forall|k: int| 0 <= k < from ==> !marker_at(b, m, k),
    ensures
        find_marker(b, m, 0) == find_marker(b, m, from),
    decreases from,
{
    if from > 0 {
        lemma_find_marker_skip(b, m, from - 1);
    }
}

/// First position of a marker of byte `m` in `b`, searching from `from` on.
fn find_marker_exec(b: &Vec<u8>, m: u8, from: usize) -> (r: Option<usize>)
    ensures
        match r {
            Some(i) => find_marker(b@, m, from as int) == Some(i as int),
            None => find_marker(b@, m, from as int) is None,
        },
{
    let n = b.len();
    let mut i: usize = from;
    while n >= 4 && i <= n - 4
        invariant
            n == b@.len(),
            from <= i,
            find_marker(b@, m, from as int) == find_marker(b@, m, i as int),
        decreases n - i,
    {
        if b[i] == m && b[i + 1] == m && b[i + 2] == m && b[i + 3] == m {
            return Some(i);
        }
        i = i + 1;
    }
    None
}

/// Number of bytes equal to `m` at the end of `b`.
fn trailing_exec(b: &Vec<u8>, m: u8) -> (r: usize)
    ensures
        r == trailing(b@, m),
{
    let n = b.len();
    let mut k: usize = 0;
    assert(b@.subrange(0, n as int) =~= b@);
    while k < n && b[n - 1 - k] == m
        invariant
            k <= n,
            n == b@.len(),
            trailing(b@, m) == k + trailing(b@.subrange(0, n - k), m),
        decreases n - k,
    {
        proof {
            let p = b@.subrange(0, n - k);
            assert(p.drop_last() =~= b@.subrange(0, n - k - 1));
        }
        k = k + 1;
    }
    proof {
        let p = b@.subrange(0, n - k);
        assert(trailing(p, m) == 0);
    }
    k
}

impl LogReader {
    /// Discards the frame returned last, then searches the buffered bytes for
    /// the next complete frame and decodes it.
    ///
    /// Returns `NeedMoreInput` where no complete frame is buffered; the bytes
    /// that may still begin one are kept for the next call.
    pub fn next_entry(&mut self) -> (r: Result<LogEntry, ReadEntryError>)
        requires
            old(self).wf(),
        ensures
            final(self).wf(),
            final(self).incomplete == old(self).incomplete,
            final(self).read_total == old(self).read_total,
            final(self).buffer@ == scan(old(self).pending()).0,
            match scan(old(self).pending()).1 {
                Some(n) => {
                    &&& final(self).last_len == n
                    &&& match r {
                        Ok(e) => decode_frame(final(self).buffer@.subrange(0, n as int)) == Ok::<
                            (Timestamp, Seq<u8>),
                            DeserializeError,
                        >(e@),
                        Err(ReadEntryError::DeserializeError(err)) => decode_frame(
                            final(self).buffer@.subrange(0, n as int),
                        ) == Err::<(Timestamp, Seq<u8>), DeserializeError>(err),
                        Err(ReadEntryError::NeedMoreInput) => false,
                    }
                },
                None => final(self).last_len == 0 && r == Err::<LogEntry, ReadEntryError>(
                    ReadEntryError::NeedMoreInput,
                ),
            },
    {
        let ghost b0 = old(self).pending();
        let last = self.last_len;
        self.shift_buffer(last);
        self.last_len = 0;
        assert(self.buffer@ =~= b0);
        proof {
            if last == 0 {
                assert(self.buffer@ =~= old(self).buffer@);
            }
        }
        loop
            invariant
                self.wf(),
                self.last_len == 0,
                scan(self.buffer@) == scan(b0),
                b0 == old(self).pending(),
                self.incomplete == old(self).incomplete,
                self.read_total == old(self).read_total,
            decreases self.buffer@.len(),
        {
            let ghost b = self.buffer@;
            match find_marker_exec(&self.buffer, 0xFF, 0) {
                None => {
                    let k = trailing_exec(&self.buffer, 0xFF);
                    proof {
                        lemma_trailing(b, 0xFF);
                    }
                    let n = self.buffer.len();
                    self.shift_buffer(n - k);
                    proof {
                        if n - k >= n {
                            assert(b.subrange(n as int, n as int) =~= Seq::<u8>::empty());
                        }
                        assert(scan(b) == (b.subrange(b.len() - trailing(b, 0xFF), b.len() as int), None::<nat>));
                        assert(self.buffer@ =~= scan(b0).0);
                        assert(scan(b0).1 is None);
                    }
                    return Err(ReadEntryError::NeedMoreInput);
                },
                Some(i) => {
                    proof {
                        lemma_find_marker(b, 0xFF, 0);
                    }
                    self.shift_buffer(i);
                    let ghost c = self.buffer@;
                    assert(c =~= b.subrange(i as int, b.len() as int));
                    let from = self.scanned;
                    proof {
                        if i == 0 {
                            assert(c =~= b);
                        }
                        lemma_find_marker_skip(c, 0x00, from as int);
                    }
                    match find_marker_exec(&self.buffer, 0x00, from) {
                        Some(j) => {
                            proof {
                                lemma_find_marker(c, 0x00, 0);
                            }
                            let len = j + 4;
                            self.last_len = len;
                            self.scanned = 0;
                            let frame = vstd::slice::slice_subrange(self.buffer.as_slice(), 0, len);
                            assert(scan(b) == (c, Some(len as nat)));
                            return match LogEntry::deserialize(frame) {
                                Ok(e) => Ok(e),
                                Err(err) => Err(ReadEntryError::DeserializeError(err)),
                            };
                        },
                        None => {
                            if self.buffer.len() >= BUFFER_CAPACITY {
                                self.shift_buffer(4);
                                assert(scan(b) == scan(c.subrange(4, c.len() as int)));
                            } else {
                                assert(scan(b) == (c, None::<nat>));
                                proof {
                                    lemma_find_marker(c, 0x00, 0);
                                }
                                let n = self.buffer.len();
                                self.scanned = if n >= 3 {
                                    n - 3
                                } else {
                                    0
                                };
                                return Err(ReadEntryError::NeedMoreInput);
                            }
                        },
                    }
                },
            }
        }
    }
}

impl LogReader {
    /// The step of a drain that follows the result `r` of `next_entry`:
    /// publish an entry, skip a frame that does not decode, read up to the
    /// free space where more bytes are needed, or end the pass with the bytes
    /// it consumed once the source has ended.
    pub fn drain_action(&self, r: Result<LogEntry, ReadEntryError>) -> (a: DrainAction)
        requires
            self.wf(),
        ensures
            match r {
                Ok(e) => a == DrainAction::Publish(e),
                Err(ReadEntryError::DeserializeError(d)) => a == DrainAction::Skip(d),
                Err(ReadEntryError::NeedMoreInput) => a == if self.incomplete {
                    DrainAction::Done(self.read_total)
                } else {
                    DrainAction::Read((BUFFER_CAPACITY - self.buffer@.len()) as usize)
                },
            },
    {
        match r {
            Ok(e) => DrainAction::Publish(e),
            Err(ReadEntryError::DeserializeError(d)) => DrainAction::Skip(d),
            Err(ReadEntryError::NeedMoreInput) => {
                if self.incomplete {
                    DrainAction::Done(self.read_total)
                } else {
                    DrainAction::Read(self.free_space())
                }
            },
        }
    }
}

} // verus!

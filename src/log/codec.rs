use crate::log::timestamp::{formatted, has_layout, lemma_parse_formatted, parsed, Timestamp};
use vstd::prelude::*;
use vstd::slice::{slice_subrange, slice_to_vec};
use vstd::utf8::valid_utf8;

verus! {

/// Largest payload of one entry, before escaping.
pub const MAX_ENTRY_SIZE: usize = 4096;

/// Width of the textual timestamp, `YYYY-MM-DD HH:MM:SS.ffffff`.
pub const DATE_LEN: usize = 26;

/// Marker byte of the frame start (repeated four times).
pub const START_BYTE: u8 = 0xFF;

/// Marker byte of the frame end (repeated four times).
pub const END_BYTE: u8 = 0x00;

/// Why a frame could not be decoded.
#[derive(Debug, Clone, Copy, PartialEq, Eq, Structural)]
pub enum DeserializeError {
    /// not enough bytes on the input
    NotEnoughInput,
    /// there's more data than the entry said there should be
    TooMuchInput,
    /// timestamp is not valid UTF-8
    Utf8Error,
    /// invalid timestamp
    InvalidTimestamp,
    /// invalid escape, missing byte after 0x00
    InvalidEscape,
    /// missing synchronization prefix
    MissingSynchronizeStart,
    /// missing synchronization suffix
    MissingSynchronizeEnd,
}

/// The start marker, `FF FF FF FF`.
pub open spec fn sync_start() -> Seq<u8> {
    seq![0xFFu8, 0xFFu8, 0xFFu8, 0xFFu8]
}

/// The end marker, `00 00 00 00`.
pub open spec fn sync_end() -> Seq<u8> {
    seq![0x00u8, 0x00u8, 0x00u8, 0x00u8]
}

/// The bytes that stand for `b` in an escaped payload.
pub open spec fn escape_byte(b: u8) -> Seq<u8> {
    if b == 0x00 {
        seq![0x00u8, 0xF0u8]
    } else if b == 0xFF {
        seq![0x00u8, 0xFFu8]
    } else {
        seq![b]
    }
}

/// Escaping of a whole payload: every byte replaced by `escape_byte` of it.
pub open spec fn escaped(s: Seq<u8>) -> Seq<u8>
    decreases s.len(),
{
    if s.len() == 0 {
        Seq::empty()
    } else {
        escaped(s.drop_last()) + escape_byte(s.last())
    }
}

/// Reverse of escaping, `None` where a `0x00` is not followed by `0xF0` or `0xFF`.
pub open spec fn unescaped(s: Seq<u8>) -> Option<Seq<u8>>
    decreases s.len(),
{
    if s.len() == 0 {
        Some(Seq::empty())
    } else if s[0] != 0x00 {
        match unescaped(s.drop_first()) {
            Some(r) => Some(seq![s[0]] + r),
            None => None,
        }
    } else if s.len() >= 2 && (s[1] == 0xF0 || s[1] == 0xFF) {
        match unescaped(s.subrange(2, s.len() as int)) {
            Some(r) => Some(seq![if s[1] == 0xF0 { 0x00u8 } else { 0xFFu8 }] + r),
            None => None,
        }
    } else {
        None
    }
}

/// `p` with `o` put in front of what it holds.
pub open spec fn prefixed(o: Seq<u8>, p: Option<Seq<u8>>) -> Option<Seq<u8>> {
    match p {
        Some(r) => Some(o + r),
        None => None,
    }
}

proof fn lemma_unescaped_concat(a: Seq<u8>, b: Seq<u8>)
    requires
        unescaped(a) is Some,
    ensures
        unescaped(a + b) == prefixed(unescaped(a)->0, unescaped(b)),
    decreases a.len(),
{
    if a.len() == 0 {
        assert(a + b =~= b);
        assert(Seq::<u8>::empty() + unescaped(b)->0 =~= unescaped(b)->0);
    } else if a[0] != 0x00 {
        assert((a + b).drop_first() =~= a.drop_first() + b);
        lemma_unescaped_concat(a.drop_first(), b);
        if let Some(r) = unescaped(b) {
            assert(seq![a[0]] + (unescaped(a.drop_first())->0 + r) =~= (seq![a[0]]
                + unescaped(a.drop_first())->0) + r);
        }
    } else {
        let rest = a.subrange(2, a.len() as int);
        assert((a + b).subrange(2, (a + b).len() as int) =~= rest + b);
        lemma_unescaped_concat(rest, b);
        let h = seq![if a[1] == 0xF0 { 0x00u8 } else { 0xFFu8 }];
        if let Some(r) = unescaped(b) {
            assert(h + (unescaped(rest)->0 + r) =~= (h + unescaped(rest)->0) + r);
        }
    }
}

proof fn lemma_unescape_escape_byte(b: u8)
    ensures
        unescaped(escape_byte(b)) == Some(seq![b]),
{
    let e = escape_byte(b);
    if b == 0x00 || b == 0xFF {
        let t = e.subrange(2, e.len() as int);
        assert(t =~= Seq::<u8>::empty());
        assert(unescaped(t) == Some(Seq::<u8>::empty()));
        assert(seq![b] + Seq::<u8>::empty() =~= seq![b]);
    } else {
        let t = e.drop_first();
        assert(t =~= Seq::<u8>::empty());
        assert(unescaped(t) == Some(Seq::<u8>::empty()));
        assert(seq![b] + Seq::<u8>::empty() =~= seq![b]);
    }
}

/// Unescaping undoes escaping: every byte sequence comes back from its
/// escaped form unchanged.
pub proof fn lemma_unescape_escape(s: Seq<u8>)
    ensures
        unescaped(escaped(s)) == Some(s),
    decreases s.len(),
{
    if s.len() == 0 {
        assert(escaped(s) =~= Seq::<u8>::empty());
    } else {
        lemma_unescape_escape(s.drop_last());
        lemma_unescaped_concat(escaped(s.drop_last()), escape_byte(s.last()));
        lemma_unescape_escape_byte(s.last());
        assert(s.drop_last() + seq![s.last()] =~= s);
    }
}

/// An escaped payload is never shorter than the payload, and has the same
/// length only where nothing was escaped.
pub proof fn lemma_escaped_len(s: Seq<u8>)
    ensures
        escaped(s).len() >= s.len(),
        escaped(s).len() == s.len() ==> escaped(s) == s,
    decreases s.len(),
{
    if s.len() > 0 {
        lemma_escaped_len(s.drop_last());
        if escaped(s).len() == s.len() {
            assert(s.drop_last().push(s.last()) =~= s);
        }
    }
}

/// An escaped payload is at most twice as long as the payload.
pub proof fn lemma_escaped_len_bound(s: Seq<u8>)
    ensures
        escaped(s).len() <= 2 * s.len(),
    decreases s.len(),
{
    if s.len() > 0 {
        lemma_escaped_len_bound(s.drop_last());
    }
}

/// Appends the escaped form of `input` to `output`: each `0x00` becomes
/// `00 F0`, each `0xFF` becomes `00 FF`, every other byte stays as it is.
pub fn escape(input: &[u8], output: &mut Vec<u8>)
    ensures
        final(output)@ == old(output)@ + escaped(input@),
{
    let mut i: usize = 0;
    while i < input.len()
        invariant
            i <= input.len(),
            output@ == old(output)@ + escaped(input@.subrange(0, i as int)),
        decreases input.len() - i,
    {
        let byte = input[i];
        let ghost before = output@;
        if byte == 0x00 {
            output.push(0x00);
            output.push(0xF0);
        } else if byte == 0xFF {
            output.push(0x00);
            output.push(0xFF);
        } else {
            output.push(byte);
        }
        proof {
            let next = input@.subrange(0, i + 1);
            assert(next.drop_last() =~= input@.subrange(0, i as int));
            assert(output@ =~= before + escape_byte(byte));
            assert(output@ =~= old(output)@ + escaped(next));
        }
        i = i + 1;
    }
    assert(input@.subrange(0, input.len() as int) =~= input@);
}

/// Appends the unescaped form of `input` to `output`, or fails with
/// `InvalidEscape` where a `0x00` is not followed by `0xF0` or `0xFF`.
pub fn unescape(input: &[u8], output: &mut Vec<u8>) -> (r: Result<(), DeserializeError>)
    ensures
        r is Ok <==> unescaped(input@) is Some,
        r is Ok ==> final(output)@ == old(output)@ + unescaped(input@)->0,
        r is Err ==> r == Err::<(), DeserializeError>(DeserializeError::InvalidEscape),
{
    let mut i: usize = 0;
    proof {
        assert(input@.subrange(0, input.len() as int) =~= input@);
        assert(output@.subrange(output@.len() as int, output@.len() as int) =~= Seq::<u8>::empty());
        if let Some(t) = unescaped(input@) {
            assert(Seq::<u8>::empty() + t =~= t);
        }
        assert(output@.subrange(0, output@.len() as int) =~= output@);
    }
    while i < input.len()
        invariant
            i <= input.len(),
            unescaped(input@) == prefixed(
                output@.subrange(old(output)@.len() as int, output@.len() as int),
                unescaped(input@.subrange(i as int, input.len() as int)),
            ),
            output@.len() >= old(output)@.len(),
            output@.subrange(0, old(output)@.len() as int) == old(output)@,
        decreases input.len() - i,
    {
        let ghost rest = input@.subrange(i as int, input.len() as int);
        let ghost before = output@;
        let ghost olen = old(output)@.len() as int;
        let byte = input[i];
        if byte == 0x00 {
            if i + 1 >= input.len() {
                assert(unescaped(rest) is None);
                return Err(DeserializeError::InvalidEscape);
            }
            let escaped_byte = input[i + 1];
            let b: u8 = if escaped_byte == 0xF0 {
                0x00
            } else if escaped_byte == 0xFF {
                0xFF
            } else {
                assert(unescaped(rest) is None);
                return Err(DeserializeError::InvalidEscape);
            };
            output.push(b);
            proof {
                assert(rest.subrange(2, rest.len() as int) =~= input@.subrange(
                    i + 2,
                    input.len() as int,
                ));
                let done = before.subrange(olen, before.len() as int);
                assert(output@.subrange(olen, output@.len() as int) =~= done + seq![b]);
                if let Some(t) = unescaped(input@.subrange(i + 2, input.len() as int)) {
                    assert(done + (seq![b] + t) =~= (done + seq![b]) + t);
                }
                assert(output@.subrange(0, olen) =~= before.subrange(0, olen));
            }
            i = i + 2;
        } else {
            output.push(byte);
            proof {
                assert(rest.drop_first() =~= input@.subrange(i + 1, input.len() as int));
                let done = before.subrange(olen, before.len() as int);
                assert(output@.subrange(olen, output@.len() as int) =~= done + seq![byte]);
                if let Some(t) = unescaped(input@.subrange(i + 1, input.len() as int)) {
                    assert(done + (seq![byte] + t) =~= (done + seq![byte]) + t);
                }
                assert(output@.subrange(0, olen) =~= before.subrange(0, olen));
            }
            i = i + 1;
        }
    }
    proof {
        let olen = old(output)@.len() as int;
        assert(input@.subrange(i as int, input.len() as int) =~= Seq::<u8>::empty());
        let done = output@.subrange(olen, output@.len() as int);
        assert(done + Seq::<u8>::empty() =~= done);
        assert(output@ =~= old(output)@ + done);
    }
    Ok(())
}

/// One log entry: a UTC timestamp and an opaque payload.
///
/// An entry does not necessarily correspond to a single line: it holds what
/// one read of the logged stream returned.
#[derive(Debug, Clone, PartialEq, Eq)]
pub struct LogEntry {
    /// timestamp in UTC
    pub timestamp: Timestamp,
    /// payload bytes
    pub entry: Vec<u8>,
}

impl View for LogEntry {
    type V = (Timestamp, Seq<u8>);

    open spec fn view(&self) -> (Timestamp, Seq<u8>) {
        (self.timestamp, self.entry@)
    }
}

/// The two length bytes, little-endian, of a payload of `n` bytes.
pub open spec fn len_bytes(n: nat) -> Seq<u8> {
    seq![(n % 256) as u8, (n / 256) as u8]
}

/// The wire frame of an entry with timestamp `t` and payload `p`.
pub open spec fn frame(t: Timestamp, p: Seq<u8>) -> Seq<u8> {
    sync_start() + formatted(t) + len_bytes(p.len()) + escaped(p) + sync_end()
}

/// What decoding the frame `b` gives, step by step: both markers, at least a
/// timestamp and a length, a UTF-8 timestamp of the right form, then a payload
/// whose unescaped length is the declared one. A payload region exactly as long
/// as declared is taken as it stands.
pub open spec fn decode_frame(b: Seq<u8>) -> Result<(Timestamp, Seq<u8>), DeserializeError> {
    if b.len() < 4 || b.subrange(0, 4) != sync_start() {
        Err(DeserializeError::MissingSynchronizeStart)
    } else if b.len() < 8 || b.subrange(b.len() - 4, b.len() as int) != sync_end() {
        Err(DeserializeError::MissingSynchronizeEnd)
    } else if b.len() - 8 < 28 {
        Err(DeserializeError::NotEnoughInput)
    } else if !valid_utf8(b.subrange(4, 30)) {
        Err(DeserializeError::Utf8Error)
    } else {
        match parsed(b.subrange(4, 30)) {
            None => Err(DeserializeError::InvalidTimestamp),
            Some(t) => {
                let l = b[30] as nat + 256 * (b[31] as nat);
                let rest = b.subrange(32, b.len() - 4);
                if rest.len() > 2 * l {
                    Err(DeserializeError::TooMuchInput)
                } else if rest.len() == l {
                    Ok((t, rest))
                } else {
                    match unescaped(rest) {
                        None => Err(DeserializeError::InvalidEscape),
                        Some(u) => if u.len() > l {
                            Err(DeserializeError::TooMuchInput)
                        } else if u.len() < l {
                            Err(DeserializeError::NotEnoughInput)
                        } else {
                            Ok((t, u))
                        },
                    }
                }
            },
        }
    }
}

/// Relies on std::str::from_utf8: `Ok` exactly where the bytes are
/// well-formed UTF-8.
#[verifier::external_body]
fn is_utf8(b: &[u8]) -> (r: bool)
    ensures
        r == valid_utf8(b@),
{
    std::str::from_utf8(b).is_ok()
}

/// Every byte of a timestamp text is printable ASCII.
pub proof fn lemma_layout_ascii(s: Seq<u8>)
    requires
        has_layout(s),
    ensures
        forall|i: int| 0 <= i < s.len() ==> 0x20 <= #[trigger] s[i] <= 0x7f,
{
    assert forall|i: int| 0 <= i < s.len() implies 0x20 <= #[trigger] s[i] <= 0x7f by {
        if i < 4 {
            assert(s.subrange(0, 4)[i] == s[i]);
        } else if 4 < i < 7 {
            assert(s.subrange(5, 7)[i - 5] == s[i]);
        } else if 7 < i < 10 {
            assert(s.subrange(8, 10)[i - 8] == s[i]);
        } else if 10 < i < 13 {
            assert(s.subrange(11, 13)[i - 11] == s[i]);
        } else if 13 < i < 16 {
            assert(s.subrange(14, 16)[i - 14] == s[i]);
        } else if 16 < i < 19 {
            assert(s.subrange(17, 19)[i - 17] == s[i]);
        } else if 19 < i {
            assert(s.subrange(20, 26)[i - 20] == s[i]);
        }
    }
}

proof fn lemma_layout_utf8(s: Seq<u8>)
    requires
        has_layout(s),
    ensures
        valid_utf8(s),
{
    lemma_layout_ascii(s);
    assert forall|i: int| 0 <= i < s.len() implies vstd::utf8::is_leading_byte_width_1(
        #[trigger] s[i],
    ) by {}
    assert(s.subrange(0, 0) =~= Seq::<u8>::empty());
    assert(vstd::utf8::partial_valid_utf8(s, 0));
    vstd::utf8::partial_valid_utf8_extend_ascii_block(s, 0, s.len() as int);
    assert(s.subrange(0, s.len() as int) =~= s);
}

/// In an escaped payload every `0x00` is followed by a byte other than
/// `0x00`, and the last byte is not `0x00`: no run of two zero bytes occurs.
pub proof fn lemma_escaped_no_zero_pair(p: Seq<u8>)
    ensures
        forall|i: int|
            0 <= i < escaped(p).len() && #[trigger] escaped(p)[i] == 0x00 ==> i + 1 < escaped(
                p,
            ).len() && escaped(p)[i + 1] != 0x00,
        p.len() > 0 ==> escaped(p).len() > 0 && escaped(p).last() != 0x00,
    decreases p.len(),
{
    if p.len() > 0 {
        let q = p.drop_last();
        lemma_escaped_no_zero_pair(q);
        let e = escaped(p);
        let a = escaped(q);
        let c = escape_byte(p.last());
        assert(e == a + c);
        assert forall|i: int| 0 <= i < e.len() && #[trigger] e[i] == 0x00 implies i + 1 < e.len()
            && e[i + 1] != 0x00 by {
            if i < a.len() {
                assert(a[i] == e[i]);
                assert(e[i + 1] == a[i + 1]);
            } else {
                assert(c[i - a.len()] == e[i]);
                assert(c[i - a.len() + 1] == e[i + 1]);
            }
        }
        assert(e.last() == c.last());
    }
}

/// Decoding the frame of a valid entry gives that entry back, for every
/// payload of at most 4096 bytes.
pub proof fn lemma_decode_frame(t: Timestamp, p: Seq<u8>)
    requires
        t.valid(),
        p.len() <= MAX_ENTRY_SIZE,
    ensures
        decode_frame(frame(t, p)) == Ok::<(Timestamp, Seq<u8>), DeserializeError>((t, p)),
{
    let b = frame(t, p);
    let f = formatted(t);
    lemma_parse_formatted(t);
    lemma_layout_utf8(f);
    lemma_escaped_len(p);
    lemma_escaped_len_bound(p);
    lemma_unescape_escape(p);
    assert(b.subrange(0, 4) =~= sync_start());
    assert(b.subrange(b.len() - 4, b.len() as int) =~= sync_end());
    assert(b.subrange(4, 30) =~= f);
    assert(b.subrange(32, b.len() - 4) =~= escaped(p));
    let n = p.len();
    assert(b[30] == (n % 256) as u8);
    assert(b[31] == (n / 256) as u8);
    assert(b[30] as nat + 256 * (b[31] as nat) == n);
}

impl LogEntry {
    /// An entry with the given timestamp and a copy of `bytes` as payload.
    pub fn with_timestamp(timestamp: Timestamp, bytes: &[u8]) -> (r: LogEntry)
        ensures
            r@ == (timestamp, bytes@),
    {
        LogEntry { timestamp, entry: slice_to_vec(bytes) }
    }

    /// An entry stamped with the current UTC time, holding a copy of
    /// `bytes`; `None` where `bytes` is longer than `MAX_ENTRY_SIZE` or the
    /// clock gives no time with a year from 1 to 9999.
    pub fn new(bytes: &[u8]) -> (r: Option<LogEntry>)
        ensures
            bytes@.len() > MAX_ENTRY_SIZE ==> r is None,
            r is Some ==> r->0@.1 == bytes@ && r->0.timestamp.valid() && r->0.timestamp.year >= 1,
    {
        if bytes.len() > MAX_ENTRY_SIZE {
            return None;
        }
        match Timestamp::now() {
            Some(timestamp) => Some(LogEntry::with_timestamp(timestamp, bytes)),
            None => None,
        }
    }

    /// An independent copy of this entry.
    pub fn to_owned(&self) -> (r: LogEntry)
        ensures
            r@ == self@,
    {
        LogEntry { timestamp: self.timestamp, entry: slice_to_vec(self.entry.as_slice()) }
    }

    /// The payload bytes.
    pub fn as_slice(&self) -> (r: &[u8])
        ensures
            r@ == self.entry@,
    {
        self.entry.as_slice()
    }

    /// Appends the wire frame of this entry to `buffer`.
    pub fn serialize(&self, buffer: &mut Vec<u8>)
        requires
            self.timestamp.valid(),
            self.timestamp.year >= 1,
            self.entry@.len() <= MAX_ENTRY_SIZE,
        ensures
            final(buffer)@ == old(buffer)@ + frame(self.timestamp, self.entry@),
    {
        buffer.push(0xFF);
        buffer.push(0xFF);
        buffer.push(0xFF);
        buffer.push(0xFF);
        self.timestamp.write_to(buffer);
        let len = self.entry.len();
        buffer.push((len % 256) as u8);
        buffer.push((len / 256) as u8);
        escape(self.entry.as_slice(), buffer);
        buffer.push(0x00);
        buffer.push(0x00);
        buffer.push(0x00);
        buffer.push(0x00);
        assert(final(buffer)@ =~= old(buffer)@ + frame(self.timestamp, self.entry@));
    }

    /// Decodes one complete frame, or says why it is not one.
    pub fn deserialize(buffer: &[u8]) -> (r: Result<LogEntry, DeserializeError>)
        ensures
            match r {
                Ok(e) => decode_frame(buffer@) == Ok::<(Timestamp, Seq<u8>), DeserializeError>(
                    e@,
                ),
                Err(err) => decode_frame(buffer@) == Err::<(Timestamp, Seq<u8>), DeserializeError>(
                    err,
                ),
            },
    {
        let n = buffer.len();
        if n < 4 || buffer[0] != 0xFF || buffer[1] != 0xFF || buffer[2] != 0xFF || buffer[3]
            != 0xFF {
            proof {
                if n >= 4 {
                    assert(buffer@.subrange(0, 4) != sync_start()) by {
                        if buffer@.subrange(0, 4) == sync_start() {
                            assert(buffer@.subrange(0, 4)[0] == buffer@[0]);
                            assert(buffer@.subrange(0, 4)[1] == buffer@[1]);
                            assert(buffer@.subrange(0, 4)[2] == buffer@[2]);
                            assert(buffer@.subrange(0, 4)[3] == buffer@[3]);
                        }
                    }
                }
            }
            return Err(DeserializeError::MissingSynchronizeStart);
        }
        assert(buffer@.subrange(0, 4) =~= sync_start());
        if n < 8 || buffer[n - 4] != 0 || buffer[n - 3] != 0 || buffer[n - 2] != 0 || buffer[n - 1]
            != 0 {
            proof {
                if n >= 8 {
                    let e = buffer@.subrange(n - 4, n as int);
                    assert(e != sync_end()) by {
                        if e == sync_end() {
                            assert(e[0] == buffer@[n - 4]);
                            assert(e[1] == buffer@[n - 3]);
                            assert(e[2] == buffer@[n - 2]);
                            assert(e[3] == buffer@[n - 1]);
                        }
                    }
                }
            }
            return Err(DeserializeError::MissingSynchronizeEnd);
        }
        assert(buffer@.subrange(n - 4, n as int) =~= sync_end());
        if n - 8 < 28 {
            return Err(DeserializeError::NotEnoughInput);
        }
        let stamp = slice_subrange(buffer, 4, 30);
        if !is_utf8(stamp) {
            return Err(DeserializeError::Utf8Error);
        }
        let timestamp = match Timestamp::parse(stamp) {
            Some(t) => t,
            None => return Err(DeserializeError::InvalidTimestamp),
        };
        let len: usize = buffer[30] as usize + 256 * (buffer[31] as usize);
        let rest = slice_subrange(buffer, 32, n - 4);
        if rest.len() > 2 * len {
            return Err(DeserializeError::TooMuchInput);
        }
        if rest.len() == len {
            return Ok(LogEntry { timestamp, entry: slice_to_vec(rest) });
        }
        let mut output: Vec<u8> = Vec::new();
        match unescape(rest, &mut output) {
            Ok(()) => {},
            Err(e) => return Err(e),
        }
        assert(output@ =~= unescaped(rest@)->0);
        if output.len() > len {
            Err(DeserializeError::TooMuchInput)
        } else if output.len() < len {
            Err(DeserializeError::NotEnoughInput)
        } else {
            Ok(LogEntry { timestamp, entry: output })
        }
    }
}

} // verus!

//! Event log records: the query a scan runs, the raw record layout of the
//! Windows event log (read from little-endian bytes), the decoding of a
//! record into an exported `EventRecord`, and what a scan accumulates.

use vstd::prelude::*;
use std::collections::BTreeMap;
use vstd::std_specs::iter::IteratorSpec;
use std::sync::Arc;
use std::sync::atomic::{AtomicBool, Ordering};
use crate::domain::{EventRecord, ExportSettings, LogSource, AnalyticsSnapshot, log_source_display_name};
use crate::text::{decimal, decimal_string, join, join_strings, push_char, string_views, strictly_sorted, insert_sorted};
use crate::timestamp::{Timestamp, format_timestamp, rfc3339_text, utc_instant};

verus! {

/// What a scan looks for.
#[derive(Clone, Debug)]
pub struct EventLogQuery {
    pub source: LogSource,
    pub event_ids: Vec<u32>,
    pub max_events: Option<usize>,
}

impl EventLogQuery {
    /// The query for the given export settings: their log, their selected
    /// event IDs and the record limit in force.
    pub fn from_settings(settings: &ExportSettings) -> (q: Self)
        ensures
            q.source == settings.source,
            q.event_ids@ == settings.selected_event_ids@,
            q.max_events == settings.effective_limit(),
    {
        EventLogQuery {
            source: settings.source,
            event_ids: settings.selected_event_ids.clone(),
            max_events: settings.effective_max_events(),
        }
    }
}

/// Progress reported while a scan runs.
#[derive(Clone, Debug)]
pub struct EventLogProgress {
    pub current_log: String,
    pub scanned_records: usize,
    pub matched_records: usize,
}

impl Default for EventLogProgress {
    fn default() -> (p: Self)
        ensures
            p.current_log@ == Seq::<char>::empty(),
            p.scanned_records == 0,
            p.matched_records == 0,
    {
        EventLogProgress { current_log: String::new(), scanned_records: 0, matched_records: 0 }
    }
}

/// The outcome of a scan.
#[derive(Clone, Debug)]
pub struct PreviewSnapshot {
    pub records: Vec<EventRecord>,
    pub analytics: AnalyticsSnapshot,
    pub scanned_records: usize,
    pub event_id_counts: BTreeMap<u32, usize>,
    pub providers: Vec<String>,
    pub machine_names: Vec<String>,
    pub duration_ms: u128,
}

impl Default for PreviewSnapshot {
    fn default() -> (s: Self)
        ensures
            s.records@.len() == 0,
            s.analytics.total_logs_found == 0,
            s.analytics.queue_size == 0,
            s.scanned_records == 0,
            s.event_id_counts@ == Map::<u32, usize>::empty(),
            s.providers@.len() == 0,
            s.machine_names@.len() == 0,
            s.duration_ms == 0,
    {
        PreviewSnapshot {
            records: Vec::new(),
            analytics: AnalyticsSnapshot { total_logs_found: 0, queue_size: 0 },
            scanned_records: 0,
            event_id_counts: BTreeMap::new(),
            providers: Vec::new(),
            machine_names: Vec::new(),
            duration_ms: 0,
        }
    }
}

/// Size in bytes of the fixed header of an event log record.
pub const RECORD_HEADER_LEN: usize = 56;

/// The fixed header of an event log record (the `EVENTLOGRECORD` layout).
#[derive(Clone, Copy, Debug, PartialEq, Eq)]
pub struct RecordHeader {
    pub length: u32,
    pub reserved: u32,
    pub record_number: u32,
    pub time_generated: u32,
    pub time_written: u32,
    pub event_id: u32,
    pub event_type: u16,
    pub num_strings: u16,
    pub event_category: u16,
    pub reserved_flags: u16,
    pub closing_record_number: u32,
    pub string_offset: u32,
    pub user_sid_length: u32,
    pub user_sid_offset: u32,
    pub data_length: u32,
    pub data_offset: u32,
}

/// The little-endian 16-bit value at `i`.
pub open spec fn le_u16(b: Seq<u8>, i: int) -> u16 {
    (b[i] + 256 * b[i + 1]) as u16
}

/// The little-endian 32-bit value at `i`.
pub open spec fn le_u32(b: Seq<u8>, i: int) -> u32 {
    (b[i] + 256 * b[i + 1] + 65536 * b[i + 2] + 16777216 * b[i + 3]) as u32
}

/// The header laid out from byte `o` on.
pub open spec fn header_at(b: Seq<u8>, o: int) -> RecordHeader {
    RecordHeader {
        length: le_u32(b, o),
        reserved: le_u32(b, o + 4),
        record_number: le_u32(b, o + 8),
        time_generated: le_u32(b, o + 12),
        time_written: le_u32(b, o + 16),
        event_id: le_u32(b, o + 20),
        event_type: le_u16(b, o + 24),
        num_strings: le_u16(b, o + 26),
        event_category: le_u16(b, o + 28),
        reserved_flags: le_u16(b, o + 30),
        closing_record_number: le_u32(b, o + 32),
        string_offset: le_u32(b, o + 36),
        user_sid_length: le_u32(b, o + 40),
        user_sid_offset: le_u32(b, o + 44),
        data_length: le_u32(b, o + 48),
        data_offset: le_u32(b, o + 52),
    }
}

fn read_u16_le(b: &[u8], i: usize) -> (v: u16)
    requires
        i + 2 <= b@.len(),
    ensures
        v == le_u16(b@, i as int),
{
    b[i] as u16 + (b[i + 1] as u16) * 256
}

fn read_u32_le(b: &[u8], i: usize) -> (v: u32)
    requires
        i + 4 <= b@.len(),
    ensures
        v == le_u32(b@, i as int),
{
    b[i] as u32 + (b[i + 1] as u32) * 256 + (b[i + 2] as u32) * 65536 + (b[i + 3] as u32) * 16777216
}

/// The record header that starts at `offset`, if the chunk holds all of it.
pub fn read_record_header(chunk: &[u8], offset: usize) -> (r: Option<RecordHeader>)
    ensures
        offset + RECORD_HEADER_LEN > chunk@.len() ==> r is None,
        offset + RECORD_HEADER_LEN <= chunk@.len() ==> r == Some(header_at(chunk@, offset as int)),
{
    if offset > chunk.len() || chunk.len() - offset < RECORD_HEADER_LEN {
        return None;
    }
    let o = offset;
    Some(RecordHeader {
        length: read_u32_le(chunk, o),
        reserved: read_u32_le(chunk, o + 4),
        record_number: read_u32_le(chunk, o + 8),
        time_generated: read_u32_le(chunk, o + 12),
        time_written: read_u32_le(chunk, o + 16),
        event_id: read_u32_le(chunk, o + 20),
        event_type: read_u16_le(chunk, o + 24),
        num_strings: read_u16_le(chunk, o + 26),
        event_category: read_u16_le(chunk, o + 28),
        reserved_flags: read_u16_le(chunk, o + 30),
        closing_record_number: read_u32_le(chunk, o + 32),
        string_offset: read_u32_le(chunk, o + 36),
        user_sid_length: read_u32_le(chunk, o + 40),
        user_sid_offset: read_u32_le(chunk, o + 44),
        data_length: read_u32_le(chunk, o + 48),
        data_offset: read_u32_le(chunk, o + 52),
    })
}

/// Whether a UTF-16 code unit opens a surrogate pair.
pub open spec fn is_high_surrogate(u: u16) -> bool {
    0xD800 <= u <= 0xDBFF
}

/// Whether a UTF-16 code unit closes a surrogate pair.
pub open spec fn is_low_surrogate(u: u16) -> bool {
    0xDC00 <= u <= 0xDFFF
}

/// The scalar value a surrogate pair stands for.
pub open spec fn pair_scalar(high: u16, low: u16) -> u32 {
    (0x10000 + (high - 0xD800) * 0x400 + (low - 0xDC00)) as u32
}

/// The replacement character U+FFFD.
pub open spec fn replacement_char() -> char {
    '\u{FFFD}'
}

/// UTF-16 decoded with every unpaired surrogate replaced by U+FFFD (what
/// `String::from_utf16_lossy` does).
pub open spec fn utf16_lossy(units: Seq<u16>) -> Seq<char>
    decreases units.len(),
{
    if units.len() == 0 {
        Seq::empty()
    } else if is_high_surrogate(units[0]) && units.len() >= 2 && is_low_surrogate(units[1]) {
        seq![(pair_scalar(units[0], units[1])) as char] + utf16_lossy(units.skip(2))
    } else if is_high_surrogate(units[0]) || is_low_surrogate(units[0]) {
        seq![replacement_char()] + utf16_lossy(units.skip(1))
    } else {
        seq![(units[0] as u32) as char] + utf16_lossy(units.skip(1))
    }
}

/// The character with scalar value `v`, if there is one (`char::from_u32`).
#[verifier::external_body]
fn char_from_u32(v: u32) -> (r: Option<char>)
    ensures
        r is Some <==> (v <= 0x10FFFF && !(0xD800 <= v <= 0xDFFF)),
        r matches Some(c) ==> c as u32 == v,
{
    char::from_u32(v)
}

fn scalar_char(v: u32) -> (c: char)
    requires
        v <= 0x10FFFF,
        !(0xD800 <= v <= 0xDFFF),
    ensures
        c == v as char,
{
    match char_from_u32(v) {
        Some(c) => {
            proof {
                vstd::utf8::char_u32_cast(c, v);
            }
            c
        },
        None => {
            '\u{FFFD}'
        },
    }
}

/// Decodes UTF-16 code units, replacing unpaired surrogates with U+FFFD.
pub fn decode_utf16_lossy(units: &Vec<u16>) -> (s: String)
    ensures
        s@ == utf16_lossy(units@),
{
    let n = units.len();
    let mut s = String::new();
    let mut i: usize = 0;
    assert(units@.skip(0) == units@);
    while i < n
        invariant
            n == units@.len(),
            i <= n,
            utf16_lossy(units@) == s@ + utf16_lossy(units@.skip(i as int)),
        decreases n - i,
    {
        let ghost rest = units@.skip(i as int);
        let u = units[i];
        assert(rest[0] == u);
        if 0xD800 <= u && u <= 0xDBFF && i + 1 < n && 0xDC00 <= units[i + 1] && units[i + 1] <= 0xDFFF {
            let low = units[i + 1];
            assert(rest[1] == low);
            let v: u32 = 0x10000 + ((u - 0xD800) as u32) * 0x400 + ((low - 0xDC00) as u32);
            let c = scalar_char(v);
            assert(rest.skip(2) == units@.skip(i + 2));
            push_char(&mut s, c);
            i = i + 2;
        } else if 0xD800 <= u && u <= 0xDFFF {
            assert(rest.skip(1) == units@.skip(i + 1));
            push_char(&mut s, '\u{FFFD}');
            i = i + 1;
        } else {
            let c = scalar_char(u as u32);
            assert(rest.skip(1) == units@.skip(i + 1));
            push_char(&mut s, c);
            i = i + 1;
        }
    }
    s
}

/// The UTF-16 code units of a NUL-terminated string read from byte `off`
/// on, two bytes at a time while two bytes remain, and the offset just past
/// what was read (past the terminator when one was found).
pub open spec fn utf16_run(b: Seq<u8>, off: int) -> (Seq<u16>, int)
    decreases b.len() - off,
{
    if off < 0 || off + 1 >= b.len() {
        (Seq::empty(), off)
    } else if le_u16(b, off) == 0 {
        (Seq::empty(), off + 2)
    } else {
        let rest = utf16_run(b, off + 2);
        (seq![le_u16(b, off)] + rest.0, rest.1)
    }
}

/// The NUL-terminated UTF-16 string at `start` (decoded lossily) and the
/// offset after it; an empty string and `start` itself when `start` lies
/// past the end.
pub open spec fn c_string_at(b: Seq<u8>, start: int) -> (Seq<char>, int) {
    if start >= b.len() {
        (Seq::empty(), start)
    } else {
        (utf16_lossy(utf16_run(b, start).0), utf16_run(b, start).1)
    }
}

/// Reads the NUL-terminated little-endian UTF-16 string that starts at
/// `start`, and returns it with the offset just past it.
pub fn read_utf16_c_string(buffer: &[u8], start: usize) -> (r: (String, usize))
    ensures
        r.0@ == c_string_at(buffer@, start as int).0,
        r.1 as int == c_string_at(buffer@, start as int).1,
{
    let n = buffer.len();
    if start >= n {
        return (String::new(), start);
    }
    let mut offset = start;
    let mut units: Vec<u16> = Vec::new();
    while offset < n && n - offset > 1
        invariant
            n == buffer@.len(),
            start <= offset,
            offset <= n,
            utf16_run(buffer@, start as int) == (units@ + utf16_run(buffer@, offset as int).0, utf16_run(buffer@, offset as int).1),
        decreases n + 2 - offset,
    {
        let value = read_u16_le(buffer, offset);
        let ghost next = utf16_run(buffer@, offset + 2);
        offset = offset + 2;
        if value == 0 {
            assert(units@ + Seq::<u16>::empty() == units@);
            assert(utf16_run(buffer@, start as int) == (units@, offset as int));
            let s = decode_utf16_lossy(&units);
            return (s, offset);
        }
        assert(units@.push(value) + next.0 == units@ + (seq![value] + next.0));
        units.push(value);
    }
    assert(units@ + Seq::<u16>::empty() == units@);
    let s = decode_utf16_lossy(&units);
    (s, offset)
}

/// The UTF-16 code units of one character: itself below U+10000, a
/// surrogate pair above.
pub open spec fn utf16_units_of(c: char) -> Seq<u16> {
    let v = c as u32;
    if v < 0x10000 {
        seq![v as u16]
    } else {
        seq![(0xD800 + (v - 0x10000) / 0x400) as u16, (0xDC00 + (v - 0x10000) % 0x400) as u16]
    }
}

/// The UTF-16 encoding of a string (what `str::encode_utf16` yields).
pub open spec fn utf16_encode(s: Seq<char>) -> Seq<u16>
    decreases s.len(),
{
    if s.len() == 0 {
        Seq::empty()
    } else {
        utf16_units_of(s[0]) + utf16_encode(s.drop_first())
    }
}

/// Code units laid out as little-endian bytes, two per unit.
pub open spec fn le_bytes(units: Seq<u16>) -> Seq<u8>
    decreases units.len(),
{
    if units.len() == 0 {
        Seq::empty()
    } else {
        seq![(units[0] % 256) as u8, (units[0] / 256) as u8] + le_bytes(units.drop_first())
    }
}

proof fn lemma_units_of_char(c: char)
    ensures
        utf16_units_of(c).len() >= 1,
        forall|i: int| 0 <= i < utf16_units_of(c).len() ==> (c != '\0' ==> #[trigger] utf16_units_of(c)[i] != 0),
        utf16_lossy(utf16_units_of(c)) == seq![c],
{
    broadcast use vstd::utf8::char_is_scalar;
    let v = c as u32;
    let u = utf16_units_of(c);
    if v < 0x10000 {
        assert(!(0xD800 <= v <= 0xDFFF));
        assert(u.skip(1) == Seq::<u16>::empty());
        assert(utf16_lossy(u.skip(1)) == Seq::<char>::empty());
        assert(((u[0] as u32) as char) == c);
        assert(utf16_lossy(u) == seq![c] + Seq::<char>::empty());
    } else {
        let k = v - 0x10000;
        assert(0 <= k < 0x100000);
        assert(is_high_surrogate(u[0]));
        assert(is_low_surrogate(u[1]));
        assert(pair_scalar(u[0], u[1]) == v);
        assert(u.skip(2) == Seq::<u16>::empty());
        assert(utf16_lossy(u.skip(2)) == Seq::<char>::empty());
        assert((v as char) == c);
        assert(utf16_lossy(u) == seq![c] + Seq::<char>::empty());
    }
}

proof fn lemma_utf16_lossy_prefix(units: Seq<u16>, rest: Seq<u16>, c: char)
    requires
        units == utf16_units_of(c),
    ensures
        utf16_lossy(units + rest) == seq![c] + utf16_lossy(rest),
{
    broadcast use vstd::utf8::char_is_scalar;
    lemma_units_of_char(c);
    let all = units + rest;
    let v = c as u32;
    if v < 0x10000 {
        assert(all[0] == units[0]);
        assert(all.skip(1) == rest);
    } else {
        assert(all[0] == units[0] && all[1] == units[1]);
        assert(all.skip(2) == rest);
    }
}

/// Decoding undoes encoding: the lossy UTF-16 decoding of a string's
/// encoding is the string itself.
pub proof fn lemma_utf16_round_trip(s: Seq<char>)
    ensures
        utf16_lossy(utf16_encode(s)) == s,
    decreases s.len(),
{
    if s.len() > 0 {
        lemma_utf16_round_trip(s.drop_first());
        lemma_utf16_lossy_prefix(utf16_units_of(s[0]), utf16_encode(s.drop_first()), s[0]);
        assert(seq![s[0]] + s.drop_first() == s);
    }
}

proof fn lemma_encode_nonzero(s: Seq<char>)
    requires
        !s.contains('\0'),
    ensures
        forall|i: int| 0 <= i < utf16_encode(s).len() ==> #[trigger] utf16_encode(s)[i] != 0,
    decreases s.len(),
{
    if s.len() > 0 {
        assert(s[0] != '\0');
        assert(!s.drop_first().contains('\0')) by {
            if s.drop_first().contains('\0') {
                let k = choose|k: int| 0 <= k < s.drop_first().len() && s.drop_first()[k] == '\0';
                assert(s[k + 1] == '\0');
            }
        }
        lemma_encode_nonzero(s.drop_first());
        lemma_units_of_char(s[0]);
        let u = utf16_units_of(s[0]);
        let e = utf16_encode(s);
        assert forall|i: int| 0 <= i < e.len() implies #[trigger] e[i] != 0 by {
            if i < u.len() {
                assert(e[i] == u[i]);
            } else {
                assert(e[i] == utf16_encode(s.drop_first())[i - u.len()]);
            }
        }
    }
}

proof fn lemma_run_over_encoded(prefix: Seq<u8>, units: Seq<u16>, rest: Seq<u8>)
    requires
        forall|i: int| 0 <= i < units.len() ==> #[trigger] units[i] != 0,
    ensures
        utf16_run(prefix + le_bytes(units) + seq![0u8, 0u8] + rest, prefix.len() as int) == (units, (prefix.len() + 2 * units.len() + 2) as int),
    decreases units.len(),
{
    let b = prefix + le_bytes(units) + seq![0u8, 0u8] + rest;
    let off = prefix.len() as int;
    if units.len() == 0 {
        assert(le_bytes(units) == Seq::<u8>::empty());
        assert(b[off] == 0u8 && b[off + 1] == 0u8);
    } else {
        let u = units[0];
        let tail = units.drop_first();
        assert forall|i: int| 0 <= i < tail.len() implies #[trigger] tail[i] != 0 by {
            assert(tail[i] == units[i + 1]);
        }
        let p2 = prefix + seq![(u % 256) as u8, (u / 256) as u8];
        assert(le_bytes(units) == seq![(u % 256) as u8, (u / 256) as u8] + le_bytes(tail));
        assert(b == p2 + le_bytes(tail) + seq![0u8, 0u8] + rest);
        lemma_run_over_encoded(p2, tail, rest);
        assert(b[off] == (u % 256) as u8 && b[off + 1] == (u / 256) as u8);
        assert(le_u16(b, off) == u);
        assert(seq![u] + tail == units);
    }
}

/// Reading back what was written: for a string without NUL, its UTF-16
/// encoding in little-endian bytes, followed by a NUL unit and anything at
/// all, reads as that string, and the offset after it lies just past the NUL.
pub proof fn lemma_c_string_round_trip(s: Seq<char>, rest: Seq<u8>)
    requires
        !s.contains('\0'),
    ensures
        c_string_at(le_bytes(utf16_encode(s)) + seq![0u8, 0u8] + rest, 0)
            == (s, (2 * utf16_encode(s).len() + 2) as int),
{
    lemma_encode_nonzero(s);
    let b = le_bytes(utf16_encode(s)) + seq![0u8, 0u8] + rest;
    assert(Seq::<u8>::empty() + le_bytes(utf16_encode(s)) + seq![0u8, 0u8] + rest == b);
    lemma_run_over_encoded(Seq::empty(), utf16_encode(s), rest);
    lemma_utf16_round_trip(s);
}

proof fn lemma_run_shape(b: Seq<u8>, off: int)
    requires
        0 <= off,
    ensures
        off + 1 >= b.len() ==> utf16_run(b, off) == (Seq::<u16>::empty(), off),
        off + 1 < b.len() ==> off < utf16_run(b, off).1 <= b.len(),
        (utf16_run(b, off).1 - off) % 2 == 0,
        forall|i: int| 0 <= i < utf16_run(b, off).0.len() ==> #[trigger] utf16_run(b, off).0[i] != 0,
    decreases b.len() - off,
{
    if off + 1 < b.len() && le_u16(b, off) != 0 {
        lemma_run_shape(b, off + 2);
        let r = utf16_run(b, off + 2);
        assert forall|i: int| 0 <= i < utf16_run(b, off).0.len() implies #[trigger] utf16_run(b, off).0[i] != 0 by {
            if i > 0 {
                assert(utf16_run(b, off).0[i] == r.0[i - 1]);
            }
        }
    }
}

proof fn lemma_lossy_has_no_nul(units: Seq<u16>)
    requires
        forall|i: int| 0 <= i < units.len() ==> #[trigger] units[i] != 0,
    ensures
        !utf16_lossy(units).contains('\0'),
    decreases units.len(),
{
    if units.len() > 0 {
        let step: int = if is_high_surrogate(units[0]) && units.len() >= 2 && is_low_surrogate(units[1]) { 2 } else { 1 };
        let rest = units.skip(step);
        assert forall|i: int| 0 <= i < rest.len() implies #[trigger] rest[i] != 0 by {
            assert(rest[i] == units[i + step]);
        }
        lemma_lossy_has_no_nul(rest);
        let first = utf16_lossy(units)[0];
        assert(first != '\0') by {
            if step == 2 {
                assert(pair_scalar(units[0], units[1]) >= 0x10000);
            } else if !(is_high_surrogate(units[0]) || is_low_surrogate(units[0])) {
                assert(((units[0] as u32) as char) as u32 == units[0] as u32);
            }
        }
        let whole = utf16_lossy(units);
        assert(whole == seq![first] + utf16_lossy(rest));
        if whole.contains('\0') {
            let k = choose|k: int| 0 <= k < whole.len() && whole[k] == '\0';
            assert(k > 0);
            assert(utf16_lossy(rest)[k - 1] == '\0');
        }
    }
}

/// The shape of what the reader returns, for any bytes and start: at or
/// past the last byte it returns the empty string and `start`; otherwise
/// the offset moves forward by whole code units without passing the end,
/// and the string holds no NUL.
pub proof fn lemma_c_string_shape(b: Seq<u8>, start: int)
    requires
        0 <= start,
    ensures
        start + 1 >= b.len() ==> c_string_at(b, start) == (Seq::<char>::empty(), start),
        start + 1 < b.len() ==> start < c_string_at(b, start).1 <= b.len(),
        (c_string_at(b, start).1 - start) % 2 == 0,
        !c_string_at(b, start).0.contains('\0'),
{
    lemma_run_shape(b, start);
    lemma_lossy_has_no_nul(utf16_run(b, start).0);
    if start + 1 >= b.len() {
        assert(utf16_lossy(Seq::<u16>::empty()) == Seq::<char>::empty());
    }
}

/// The non-empty strings among the `count` NUL-terminated UTF-16 strings
/// that follow one another from `off` on; reading stops early at the end of
/// the bytes.
pub open spec fn insertion_strings_from(b: Seq<u8>, off: int, count: nat) -> Seq<Seq<char>>
    decreases count,
{
    if count == 0 || off >= b.len() {
        Seq::empty()
    } else {
        let (value, next) = c_string_at(b, off);
        let rest = insertion_strings_from(b, next, (count - 1) as nat);
        if value.len() == 0 {
            rest
        } else {
            seq![value] + rest
        }
    }
}

/// The record's non-empty insertion strings, read from its string offset on.
pub open spec fn insertion_strings(raw: Seq<u8>, header: RecordHeader) -> Seq<Seq<char>> {
    insertion_strings_from(raw, header.string_offset as int, header.num_strings as nat)
}

/// Reads the record's insertion strings, keeping the non-empty ones.
pub fn read_insertion_strings(raw_record: &[u8], header: &RecordHeader) -> (v: Vec<String>)
    ensures
        string_views(v@) == insertion_strings(raw_record@, *header),
{
    let mut strings: Vec<String> = Vec::new();
    let mut offset = header.string_offset as usize;
    let count = header.num_strings;
    let mut k: u16 = 0;
    let ghost target = insertion_strings(raw_record@, *header);
    while k < count
        invariant
            k <= count == header.num_strings,
            target == insertion_strings(raw_record@, *header),
            target == string_views(strings@) + insertion_strings_from(raw_record@, offset as int, (count - k) as nat),
        ensures
            k == count || offset >= raw_record@.len(),
            target == string_views(strings@) + insertion_strings_from(raw_record@, offset as int, (count - k) as nat),
        decreases count - k,
    {
        if offset >= raw_record.len() {
            break;
        }
        let (value, next) = read_utf16_c_string(raw_record, offset);
        let ghost rest = insertion_strings_from(raw_record@, next as int, (count - k - 1) as nat);
        if !value.as_str().is_empty() {
            assert(string_views(strings@.push(value)) == string_views(strings@).push(value@));
            assert(string_views(strings@).push(value@) + rest == string_views(strings@) + (seq![value@] + rest));
            strings.push(value);
        } else {
            assert(value@.len() == 0);
        }
        offset = next;
        k = k + 1;
    }
    proof {
        assert(insertion_strings_from(raw_record@, offset as int, (count - k) as nat) == Seq::<Seq<char>>::empty());
        assert(string_views(strings@) + Seq::<Seq<char>>::empty() == string_views(strings@));
    }
    strings
}

/// The severity label of an event type.
pub open spec fn level_text(event_type: u16) -> Seq<char> {
    if event_type == 1 {
        "Hata"@
    } else if event_type == 2 {
        "Uyarı"@
    } else if event_type == 4 {
        "Bilgi"@
    } else if event_type == 8 {
        "Denetim Başarılı"@
    } else if event_type == 16 {
        "Denetim Başarısız"@
    } else if event_type == 0 {
        "Başarılı"@
    } else {
        "Bilinmiyor"@
    }
}

/// The severity label of an event type (error, warning, information, audit
/// success, audit failure, success; anything else is unknown).
pub fn level_name(event_type: u16) -> (s: &'static str)
    ensures
        s@ == level_text(event_type),
{
    if event_type == 1 {
        "Hata"
    } else if event_type == 2 {
        "Uyarı"
    } else if event_type == 4 {
        "Bilgi"
    } else if event_type == 8 {
        "Denetim Başarılı"
    } else if event_type == 16 {
        "Denetim Başarısız"
    } else if event_type == 0 {
        "Başarılı"
    } else {
        "Bilinmiyor"
    }
}

/// The name used for a missing provider or computer.
pub open spec fn unknown_name() -> Seq<char> {
    "Bilinmeyen"@
}

/// `s`, or the unknown name when `s` is empty.
pub open spec fn or_unknown(s: Seq<char>) -> Seq<char> {
    if s.len() == 0 {
        unknown_name()
    } else {
        s
    }
}

/// The event ID a record is exported under: the low 16 bits of the raw ID.
pub open spec fn record_event_id(header: RecordHeader) -> u32 {
    header.event_id & 0xFFFF
}

/// The provider name stored right after the header.
pub open spec fn record_provider(raw: Seq<u8>) -> Seq<char> {
    c_string_at(raw, RECORD_HEADER_LEN as int).0
}

/// The computer name stored right after the provider name.
pub open spec fn record_computer(raw: Seq<u8>) -> Seq<char> {
    c_string_at(raw, c_string_at(raw, RECORD_HEADER_LEN as int).1).0
}

/// The message of a record: its insertion strings joined by ` | `, or a
/// note that no message could be decoded when it has none.
pub open spec fn record_message(raw: Seq<u8>, header: RecordHeader) -> Seq<char> {
    let strings = insertion_strings(raw, header);
    if strings.len() == 0 {
        or_unknown(record_provider(raw)) + " kaynağındaki Event ID "@ + decimal(record_event_id(header) as nat)
            + " için ileti çözümlenemedi."@
    } else {
        join(strings, " | "@)
    }
}

/// Whether `r` is the export of the raw record `raw` with header `header`,
/// its creation time written as `created_at`.
pub open spec fn is_decoded_record(r: EventRecord, raw: Seq<u8>, header: RecordHeader, created_at: Seq<char>) -> bool {
    &&& r.event_id == record_event_id(header)
    &&& r.provider@ == or_unknown(record_provider(raw))
    &&& r.level@ == level_text(header.event_type)
    &&& r.computer@ == or_unknown(record_computer(raw))
    &&& r.created_at@ == created_at
    &&& r.message@ == record_message(raw, header)
}

fn or_unknown_string(s: String) -> (r: String)
    ensures
        r@ == or_unknown(s@),
{
    if s.as_str().is_empty() {
        "Bilinmeyen".to_owned()
    } else {
        s
    }
}

/// Builds the exported record from the raw record bytes, its header and
/// the text of its creation time.
pub fn assemble_record(raw_record: &[u8], header: &RecordHeader, created_at: String) -> (r: EventRecord)
    ensures
        is_decoded_record(r, raw_record@, *header, created_at@),
        record_provider(raw_record@).len() > 0 ==> r.provider@ == record_provider(raw_record@),
        insertion_strings(raw_record@, *header).len() == 0 ==> r.message@ == r.provider@ + " kaynağındaki Event ID "@
            + decimal(r.event_id as nat) + " için ileti çözümlenemedi."@,
{
    let event_id = header.event_id & 0xFFFF;
    let (provider, next_offset) = read_utf16_c_string(raw_record, RECORD_HEADER_LEN);
    let (computer, _) = read_utf16_c_string(raw_record, next_offset);
    let insertion = read_insertion_strings(raw_record, header);
    let provider = or_unknown_string(provider);
    let message = if insertion.len() == 0 {
        let mut m = provider.clone();
        m.append(" kaynağındaki Event ID ");
        let id_text = decimal_string(event_id as u128);
        m.append(id_text.as_str());
        m.append(" için ileti çözümlenemedi.");
        m
    } else {
        join_strings(&insertion, " | ")
    };
    EventRecord {
        event_id,
        provider,
        level: level_name(header.event_type).to_owned(),
        computer: or_unknown_string(computer),
        created_at,
        message,
    }
}

/// Decodes a raw event log record; its creation time is written in this
/// machine's local zone.
pub fn parse_record(raw_record: &[u8], header: &RecordHeader) -> (r: EventRecord)
    ensures
        exists|ts: Timestamp| ts.wf() && utc_instant(ts) == header.time_generated && is_decoded_record(r, raw_record@, *header, #[trigger] rfc3339_text(ts)),
{
    let created_at = format_timestamp(header.time_generated);
    assemble_record(raw_record, header, created_at)
}

/// Whether the chunk has room for a record header at `offset`.
pub open spec fn header_fits(chunk_len: int, offset: int) -> bool {
    offset + RECORD_HEADER_LEN <= chunk_len
}

/// The record that starts at `offset`: its header when the chunk holds the
/// whole header and the whole (non-empty) record, `None` where the walk
/// over the chunk stops.
pub open spec fn record_at(chunk: Seq<u8>, offset: int) -> Option<RecordHeader> {
    if !header_fits(chunk.len() as int, offset) {
        None
    } else {
        let h = header_at(chunk, offset);
        if h.length == 0 || offset + h.length > chunk.len() {
            None
        } else {
            Some(h)
        }
    }
}

/// Whether the chunk has room for a record header at `offset`.
pub fn has_room_for_header(chunk: &[u8], offset: usize) -> (b: bool)
    ensures
        b == header_fits(chunk@.len() as int, offset as int),
{
    offset <= chunk.len() && chunk.len() - offset >= RECORD_HEADER_LEN
}

/// The header of the record at `offset`, if the chunk holds all of it.
pub fn next_record(chunk: &[u8], offset: usize) -> (r: Option<RecordHeader>)
    ensures
        r == record_at(chunk@, offset as int),
{
    match read_record_header(chunk, offset) {
        None => None,
        Some(h) => {
            let len = h.length as usize;
            if len == 0 || chunk.len() - offset < len {
                None
            } else {
                Some(h)
            }
        },
    }
}

/// How many scanned records pass between two progress reports.
pub const PROGRESS_INTERVAL: usize = 250;

/// The number of records a scan keeps: all matches, or at most the limit.
pub open spec fn kept_count(matched: nat, limit: Option<usize>) -> nat {
    match limit {
        Some(l) => if matched < l { matched } else { l as nat },
        None => matched,
    }
}

/// What a scan has accumulated so far.
pub struct ScanState {
    pub scanned_total: usize,
    pub matched_total: usize,
    pub records: Vec<EventRecord>,
    pub event_id_counts: BTreeMap<u32, usize>,
    pub providers: Vec<String>,
    pub machine_names: Vec<String>,
}

impl ScanState {
    /// The scan's invariant for a record limit: no more matches than
    /// scanned records, as many records kept as the limit allows, no count
    /// above the matches, and provider and machine names each sorted and
    /// free of repeats.
    pub open spec fn wf(&self, limit: Option<usize>) -> bool {
        &&& self.matched_total <= self.scanned_total
        &&& self.records@.len() == kept_count(self.matched_total as nat, limit)
        &&& forall|id: u32| #[trigger] self.event_id_counts@.contains_key(id) ==> 1 <= self.event_id_counts@[id] <= self.matched_total
        &&& strictly_sorted(string_views(self.providers@))
        &&& strictly_sorted(string_views(self.machine_names@))
    }

    /// A scan that has seen nothing yet.
    pub fn new() -> (s: Self)
        ensures
            s.scanned_total == 0,
            s.matched_total == 0,
            s.records@.len() == 0,
            s.event_id_counts@ == Map::<u32, usize>::empty(),
            s.providers@.len() == 0,
            s.machine_names@.len() == 0,
            forall|limit: Option<usize>| s.wf(limit),
    {
        ScanState {
            scanned_total: 0,
            matched_total: 0,
            records: Vec::new(),
            event_id_counts: BTreeMap::new(),
            providers: Vec::new(),
            machine_names: Vec::new(),
        }
    }

    /// The progress to report for this scan of `source`.
    pub fn progress(&self, source: LogSource) -> (p: EventLogProgress)
        ensures
            p.current_log@ == log_source_display_name(source),
            p.scanned_records == self.scanned_total,
            p.matched_records == self.matched_total,
    {
        EventLogProgress {
            current_log: source.display_name().to_owned(),
            scanned_records: self.scanned_total,
            matched_records: self.matched_total,
        }
    }
}

fn contains_id(ids: &Vec<u32>, id: u32) -> (b: bool)
    ensures
        b == ids@.contains(id),
{
    let n = ids.len();
    for i in 0..n
        invariant
            n == ids@.len(),
            forall|k: int| 0 <= k < i ==> ids@[k] != id,
    {
        if ids[i] == id {
            assert(ids@[i as int] == id);
            return true;
        }
    }
    false
}

proof fn lemma_u32_keys_are_ordered()
    ensures
        vstd::laws_cmp::obeys_cmp::<u32>(),
{
    broadcast use vstd::laws_cmp::group_laws_cmp;
}

/// The raw bytes of the record that starts at `offset`.
pub open spec fn record_bytes(chunk: Seq<u8>, offset: int, header: RecordHeader) -> Seq<u8> {
    chunk.subrange(offset, offset + header.length)
}

/// What taking in the record at `offset` does to a scan: it is counted as
/// scanned; when its event ID is one the query asks for, it is counted as a
/// match and per ID, decoded and kept while the limit allows, and its
/// provider and computer names are noted; otherwise nothing else changes.
pub open spec fn absorbed_record(before: ScanState, after: ScanState, query: EventLogQuery, chunk: Seq<u8>, offset: int, header: RecordHeader) -> bool {
    let id = record_event_id(header);
    let raw = record_bytes(chunk, offset, header);
    &&& after.scanned_total == before.scanned_total + 1
    &&& if query.event_ids@.contains(id) {
        &&& after.matched_total == before.matched_total + 1
        &&& after.event_id_counts@ == before.event_id_counts@.insert(
            id,
            (if before.event_id_counts@.contains_key(id) { before.event_id_counts@[id] + 1 } else { 1 }) as usize,
        )
        &&& if before.records@.len() < kept_count(after.matched_total as nat, query.max_events) {
            &&& after.records@.drop_last() == before.records@
            &&& after.records@.len() == before.records@.len() + 1
            &&& exists|ts: Timestamp| ts.wf() && utc_instant(ts) == header.time_generated && is_decoded_record(after.records@.last(), raw, header, #[trigger] rfc3339_text(ts))
        } else {
            after.records@ == before.records@
        }
        &&& forall|x: Seq<char>| string_views(after.providers@).contains(x) <==> (string_views(before.providers@).contains(x) || x == or_unknown(record_provider(raw)))
        &&& forall|x: Seq<char>| string_views(after.machine_names@).contains(x) <==> (string_views(before.machine_names@).contains(x) || x == or_unknown(record_computer(raw)))
    } else {
        &&& after.matched_total == before.matched_total
        &&& after.event_id_counts@ == before.event_id_counts@
        &&& after.records@ == before.records@
        &&& after.providers@ == before.providers@
        &&& after.machine_names@ == before.machine_names@
    }
}

impl ScanState {
    /// Takes in the record at `offset` of the chunk: counts it as scanned;
    /// when its event ID is one the query asks for, counts it as a match and
    /// per ID, decodes it, keeps it while the query's limit allows, and
    /// notes its provider and computer. Every `PROGRESS_INTERVAL` scanned
    /// records it returns the progress to report.
    pub fn absorb_record(&mut self, query: &EventLogQuery, chunk: &[u8], offset: usize, header: &RecordHeader) -> (progress: Option<EventLogProgress>)
        requires
            old(self).wf(query.max_events),
            old(self).scanned_total < usize::MAX,
            record_at(chunk@, offset as int) == Some(*header),
        ensures
            final(self).wf(query.max_events),
            absorbed_record(*old(self), *final(self), *query, chunk@, offset as int, *header),
            query.max_events is None ==> final(self).records@.len() == final(self).matched_total,
            final(self).scanned_total % PROGRESS_INTERVAL == 0 ==> (progress matches Some(p) && p.current_log@ == log_source_display_name(query.source)
                && p.scanned_records == final(self).scanned_total && p.matched_records == final(self).matched_total),
            final(self).scanned_total % PROGRESS_INTERVAL != 0 ==> progress is None,
    {
        proof {
            lemma_u32_keys_are_ordered();
        }
        let ghost limit = query.max_events;
        self.scanned_total = self.scanned_total + 1;
        let id = header.event_id & 0xFFFF;
        if contains_id(&query.event_ids, id) {
            self.matched_total = self.matched_total + 1;
            let current = match self.event_id_counts.get(&id) {
                Some(c) => *c,
                None => 0,
            };
            self.event_id_counts.insert(id, current + 1);
            let clen = chunk.len();
            assert(offset + header.length <= clen);
            let end = offset + header.length as usize;
            let raw = &chunk[offset..end];
            assert(raw@ == record_bytes(chunk@, offset as int, *header));
            let parsed = parse_record(raw, header);
            proof {
                let ts = choose|ts: Timestamp| ts.wf() && utc_instant(ts) == header.time_generated && is_decoded_record(parsed, raw@, *header, #[trigger] rfc3339_text(ts));
                reveal_strlit("Bilinmeyen");
                assert(parsed.provider@ == or_unknown(record_provider(raw@)));
                assert(parsed.computer@ == or_unknown(record_computer(raw@)));
                assert(parsed.provider@.len() > 0);
                assert(parsed.computer@.len() > 0);
            }
            if !parsed.provider.as_str().is_empty() {
                insert_sorted(&mut self.providers, parsed.provider.clone());
            }
            if !parsed.computer.as_str().is_empty() {
                insert_sorted(&mut self.machine_names, parsed.computer.clone());
            }
            let keep = match query.max_events {
                Some(l) => self.records.len() < l,
                None => true,
            };
            if keep {
                self.records.push(parsed);
                assert(self.records@.drop_last() == old(self).records@);
            }
            assert forall|k: u32| #[trigger] self.event_id_counts@.contains_key(k) implies 1 <= self.event_id_counts@[k] <= self.matched_total by {
                if k != id {
                    assert(old(self).event_id_counts@.contains_key(k));
                }
            }
        }
        if self.scanned_total % PROGRESS_INTERVAL == 0 {
            Some(self.progress(query.source))
        } else {
            None
        }
    }

    /// The outcome of the scan: the records kept, the number of matches,
    /// the queue size (the matches, capped by the limit), the per-ID
    /// counts and the provider and machine names in order.
    pub fn finish(self, query: &EventLogQuery, duration_ms: u128) -> (snapshot: PreviewSnapshot)
        requires
            self.wf(query.max_events),
        ensures
            snapshot.records@ == self.records@,
            snapshot.analytics.total_logs_found == self.matched_total,
            snapshot.analytics.queue_size == kept_count(self.matched_total as nat, query.max_events),
            snapshot.scanned_records == self.scanned_total,
            snapshot.event_id_counts@ == self.event_id_counts@,
            snapshot.providers@ == self.providers@,
            snapshot.machine_names@ == self.machine_names@,
            snapshot.duration_ms == duration_ms,
            snapshot.analytics.queue_size == snapshot.records@.len(),
            snapshot.analytics.queue_size <= snapshot.analytics.total_logs_found,
            query.max_events is None ==> snapshot.analytics.queue_size == snapshot.analytics.total_logs_found,
            query.max_events matches Some(l) ==> snapshot.analytics.queue_size <= l,
    {
        let queue_size = match query.max_events {
            Some(limit) => if self.matched_total < limit { self.matched_total } else { limit },
            None => self.matched_total,
        };
        PreviewSnapshot {
            records: self.records,
            analytics: AnalyticsSnapshot { total_logs_found: self.matched_total, queue_size },
            scanned_records: self.scanned_total,
            event_id_counts: self.event_id_counts,
            providers: self.providers,
            machine_names: self.machine_names,
            duration_ms,
        }
    }
}

/// The queue size of a finished scan equals the number of records it
/// kept, and it never exceeds the number of matches nor the limit.
pub proof fn lemma_queue_size_is_kept_records(state: ScanState, limit: Option<usize>)
    requires
        state.wf(limit),
    ensures
        kept_count(state.matched_total as nat, limit) == state.records@.len(),
        kept_count(state.matched_total as nat, limit) <= state.matched_total,
        limit matches Some(l) ==> kept_count(state.matched_total as nat, limit) <= l,
{
}

/// Size of the buffer the first read of the event log uses.
pub const INITIAL_READ_BUFFER_LEN: usize = 65536;

/// How a read of the event log failed.
#[derive(Clone, Copy, Debug, PartialEq, Eq)]
pub enum ReadFailure {
    /// The end of the log was reached.
    EndOfLog,
    /// The next record does not fit into the buffer.
    InsufficientBuffer,
    /// Any other failure.
    Other,
}

/// What a scan does after a failed read.
#[derive(Clone, Copy, Debug, PartialEq, Eq)]
pub enum ReadRecovery {
    /// Stop reading: the scan is complete.
    Finish,
    /// Grow the buffer to this many bytes and read again.
    GrowBuffer(usize),
    /// Give up with an error.
    Fail,
}

/// The reaction to a failed read: finish at the end of the log, grow the
/// buffer when the log asks for more room than it has, fail otherwise.
pub fn recover_from_read_failure(failure: ReadFailure, bytes_needed: u32, buffer_len: usize) -> (r: ReadRecovery)
    ensures
        failure == ReadFailure::EndOfLog ==> r == ReadRecovery::Finish,
        failure == ReadFailure::InsufficientBuffer && bytes_needed > buffer_len ==> r == ReadRecovery::GrowBuffer(bytes_needed as usize),
        failure == ReadFailure::InsufficientBuffer && bytes_needed <= buffer_len ==> r == ReadRecovery::Fail,
        failure == ReadFailure::Other ==> r == ReadRecovery::Fail,
{
    match failure {
        ReadFailure::EndOfLog => ReadRecovery::Finish,
        ReadFailure::InsufficientBuffer => {
            if (bytes_needed as u64) > (buffer_len as u64) {
                ReadRecovery::GrowBuffer(bytes_needed as usize)
            } else {
                ReadRecovery::Fail
            }
        },
        ReadFailure::Other => ReadRecovery::Fail,
    }
}

/// Receives the progress a running scan reports.
pub trait ProgressSink: Send + Sync {
    /// Takes one progress report.
    fn report(&self, progress: EventLogProgress);
}

/// How a running scan learns that it was cancelled, and where it reports
/// its progress.
pub struct ScanController {
    cancel_flag: Arc<AtomicBool>,
    progress_callback: Option<Arc<dyn ProgressSink>>,
}

impl ScanController {
    /// The shared cancellation flag.
    pub closed spec fn flag(&self) -> Arc<AtomicBool> {
        self.cancel_flag
    }

    /// Where progress goes, if anywhere.
    pub closed spec fn sink(&self) -> Option<Arc<dyn ProgressSink>> {
        self.progress_callback
    }

    /// A controller over the shared cancellation flag and the optional
    /// progress sink.
    pub fn new(cancel_flag: Arc<AtomicBool>, progress_callback: Option<Arc<dyn ProgressSink>>) -> (c: Self)
        ensures
            c.flag() == cancel_flag,
            c.sink() == progress_callback,
    {
        ScanController { cancel_flag, progress_callback }
    }

    /// Whether the shared cancellation flag is set.
    pub fn is_cancelled(&self) -> bool {
        self.cancel_flag.load(Ordering::Relaxed)
    }

    /// Reports `progress` to the sink, if there is one.
    pub fn report(&self, progress: EventLogProgress) {
        match &self.progress_callback {
            Some(sink) => sink.report(progress),
            None => {},
        }
    }
}

/// The offsets of the records a walk over the chunk visits from `offset`
/// on: each record starts where the one before it ends, and the walk stops
/// at the first place that holds no whole record.
pub open spec fn record_offsets(chunk: Seq<u8>, offset: int) -> Seq<int>
    decreases chunk.len() - offset,
{
    match record_at(chunk, offset) {
        Some(h) => if offset >= 0 && h.length > 0 && offset + h.length <= chunk.len() {
            seq![offset].add(record_offsets(chunk, offset + h.length))
        } else {
            Seq::empty()
        },
        None => Seq::empty(),
    }
}

/// The offsets, among `offsets`, of the records that carry one of the
/// event IDs `ids`, in order.
pub open spec fn matching_offsets(chunk: Seq<u8>, offsets: Seq<int>, ids: Seq<u32>) -> Seq<int>
    decreases offsets.len(),
{
    if offsets.len() == 0 {
        Seq::empty()
    } else {
        let rest = matching_offsets(chunk, offsets.drop_last(), ids);
        if ids.contains(record_event_id(header_at(chunk, offsets.last()))) {
            rest.push(offsets.last())
        } else {
            rest
        }
    }
}

/// How many of the records at `offsets` carry the event ID `id`.
pub open spec fn id_occurrences(chunk: Seq<u8>, offsets: Seq<int>, id: u32) -> nat
    decreases offsets.len(),
{
    if offsets.len() == 0 {
        0
    } else {
        id_occurrences(chunk, offsets.drop_last(), id) + if record_event_id(header_at(chunk, offsets.last())) == id {
            1nat
        } else {
            0nat
        }
    }
}

/// The count kept for `id`, zero when there is none.
pub open spec fn count_of(counts: Map<u32, usize>, id: u32) -> nat {
    if counts.contains_key(id) {
        counts[id] as nat
    } else {
        0
    }
}

/// The raw bytes of the record at `offset`.
pub open spec fn raw_record_at(chunk: Seq<u8>, offset: int) -> Seq<u8> {
    record_bytes(chunk, offset, header_at(chunk, offset))
}

/// Whether `r` is the record at `offset` decoded, its creation time
/// rendered in some local zone.
pub open spec fn decodes_record_at(r: EventRecord, chunk: Seq<u8>, offset: int) -> bool {
    exists|ts: Timestamp| ts.wf() && utc_instant(ts) == header_at(chunk, offset).time_generated
        && is_decoded_record(r, raw_record_at(chunk, offset), header_at(chunk, offset), #[trigger] rfc3339_text(ts))
}

/// The provider name noted for the record at `offset`.
pub open spec fn provider_at(chunk: Seq<u8>, offset: int) -> Seq<char> {
    or_unknown(record_provider(raw_record_at(chunk, offset)))
}

/// The computer name noted for the record at `offset`.
pub open spec fn computer_at(chunk: Seq<u8>, offset: int) -> Seq<char> {
    or_unknown(record_computer(raw_record_at(chunk, offset)))
}

/// What taking in the records at `taken` (in order) does to a scan: they
/// are counted as scanned; those in `matching` (the ones with a wanted ID)
/// are counted as matches and per ID, the first of them are decoded and
/// kept after the records kept before while the limit allows, and their
/// provider and computer names join the names noted before.
pub open spec fn took_records(before: ScanState, after: ScanState, chunk: Seq<u8>, taken: Seq<int>, matching: Seq<int>) -> bool {
    &&& after.scanned_total == before.scanned_total + taken.len()
    &&& after.matched_total == before.matched_total + matching.len()
    &&& forall|id: u32| #[trigger] count_of(after.event_id_counts@, id) == count_of(before.event_id_counts@, id) + id_occurrences(chunk, matching, id)
    &&& forall|id: u32| after.event_id_counts@.contains_key(id) <==> (before.event_id_counts@.contains_key(id) || id_occurrences(chunk, matching, id) > 0)
    &&& before.records@.len() <= after.records@.len()
    &&& after.records@.len() - before.records@.len() <= matching.len()
    &&& after.records@.take(before.records@.len() as int) == before.records@
    &&& forall|j: int| before.records@.len() <= j < after.records@.len()
        ==> decodes_record_at(#[trigger] after.records@[j], chunk, matching[j - before.records@.len()])
    &&& forall|x: Seq<char>| string_views(after.providers@).contains(x)
        <==> (string_views(before.providers@).contains(x) || matching.map_values(|o: int| provider_at(chunk, o)).contains(x))
    &&& forall|x: Seq<char>| string_views(after.machine_names@).contains(x)
        <==> (string_views(before.machine_names@).contains(x) || matching.map_values(|o: int| computer_at(chunk, o)).contains(x))
}

proof fn lemma_record_offsets_bound(chunk: Seq<u8>, offset: int)
    requires
        0 <= offset <= chunk.len(),
    ensures
        record_offsets(chunk, offset).len() <= chunk.len() - offset,
    decreases chunk.len() - offset,
{
    match record_at(chunk, offset) {
        Some(h) => {
            if h.length > 0 && offset + h.length <= chunk.len() {
                lemma_record_offsets_bound(chunk, offset + h.length);
            }
        },
        None => {},
    }
}

/// A scan stopped because its controller was cancelled.
#[derive(Clone, Copy, Debug, PartialEq, Eq)]
pub struct ScanCancelled;

/// The message a scan fails with when the user cancels it.
pub fn scan_cancelled_message() -> (s: &'static str)
    ensures
        s@ == "Tarama kullanıcı tarafından iptal edildi"@,
{
    "Tarama kullanıcı tarafından iptal edildi"
}

proof fn lemma_took_nothing(state: ScanState, chunk: Seq<u8>)
    ensures
        took_records(state, state, chunk, Seq::empty(), Seq::empty()),
{
    assert(state.records@.take(state.records@.len() as int) == state.records@);
    assert(Seq::<int>::empty().map_values(|o: int| provider_at(chunk, o)) == Seq::<Seq<char>>::empty());
    assert(Seq::<int>::empty().map_values(|o: int| computer_at(chunk, o)) == Seq::<Seq<char>>::empty());
}

proof fn lemma_took_one_more(
    start: ScanState,
    mid: ScanState,
    next: ScanState,
    query: EventLogQuery,
    chunk: Seq<u8>,
    done: Seq<int>,
    offset: int,
    header: RecordHeader,
)
    requires
        start.wf(query.max_events),
        mid.wf(query.max_events),
        took_records(start, mid, chunk, done, matching_offsets(chunk, done, query.event_ids@)),
        record_at(chunk, offset) == Some(header),
        absorbed_record(mid, next, query, chunk, offset, header),
    ensures
        took_records(start, next, chunk, done.push(offset), matching_offsets(chunk, done.push(offset), query.event_ids@)),
{
    broadcast use vstd::seq_lib::lemma_seq_contains_after_push;
    let ids = query.event_ids@;
    let m = matching_offsets(chunk, done, ids);
    let d2 = done.push(offset);
    assert(d2.drop_last() == done);
    assert(d2.last() == offset);
    let m2 = matching_offsets(chunk, d2, ids);
    assert(header == header_at(chunk, offset));
    assert(record_bytes(chunk, offset, header) == raw_record_at(chunk, offset));
    let hid = record_event_id(header);
    if ids.contains(hid) {
        assert(m2 == m.push(offset));
        assert(m2.drop_last() == m);
        assert forall|id: u32| #[trigger] count_of(next.event_id_counts@, id) == count_of(start.event_id_counts@, id) + id_occurrences(chunk, m2, id) by {
            assert(id_occurrences(chunk, m2, id) == id_occurrences(chunk, m, id) + if hid == id { 1nat } else { 0nat });
            assert(count_of(mid.event_id_counts@, id) == count_of(start.event_id_counts@, id) + id_occurrences(chunk, m, id));
            if hid == id {
                assert(count_of(next.event_id_counts@, id) == count_of(mid.event_id_counts@, id) + 1);
            } else {
                assert(count_of(next.event_id_counts@, id) == count_of(mid.event_id_counts@, id));
            }
        }
        assert forall|id: u32| next.event_id_counts@.contains_key(id) <==> (start.event_id_counts@.contains_key(id) || id_occurrences(chunk, m2, id) > 0) by {
            assert(id_occurrences(chunk, m2, id) == id_occurrences(chunk, m, id) + if hid == id { 1nat } else { 0nat });
            assert(count_of(mid.event_id_counts@, id) == count_of(start.event_id_counts@, id) + id_occurrences(chunk, m, id));
        }
        let sl = start.records@.len();
        let ml = mid.records@.len();
        if ml < kept_count(next.matched_total as nat, query.max_events) {
            assert(ml == mid.matched_total);
            assert(sl == start.matched_total);
            assert(ml - sl == m.len());
            assert forall|j: int| sl <= j < next.records@.len() implies decodes_record_at(#[trigger] next.records@[j], chunk, m2[j - sl]) by {
                if j < ml {
                    assert(next.records@[j] == mid.records@[j]);
                    assert(m2[j - sl] == m[j - sl]);
                } else {
                    assert(j == ml);
                    assert(m2[j - sl] == offset);
                    assert(next.records@[j] == next.records@.last());
                }
            }
            assert(next.records@.take(sl as int) == mid.records@.take(sl as int));
        } else {
            assert forall|j: int| sl <= j < next.records@.len() implies decodes_record_at(#[trigger] next.records@[j], chunk, m2[j - sl]) by {
                assert(m2[j - sl] == m[j - sl]);
            }
        }
        let pm = m.map_values(|o: int| provider_at(chunk, o));
        let pm2 = m2.map_values(|o: int| provider_at(chunk, o));
        assert(pm2 == pm.push(provider_at(chunk, offset)));
        let cm = m.map_values(|o: int| computer_at(chunk, o));
        let cm2 = m2.map_values(|o: int| computer_at(chunk, o));
        assert(cm2 == cm.push(computer_at(chunk, offset)));
    } else {
        assert(m2 == m);
    }
}

/// Walks the records of one chunk read from the log, in order, taking each
/// into the scan (`absorb_record`) and reporting progress where that asks
/// for it. Before each record it asks the controller whether the scan was
/// cancelled, and stops with `ScanCancelled` if so; a chunk too short to
/// hold a record header is taken without asking. The records taken in are
/// always a prefix of the chunk's records; all of them when it returns `Ok`.
pub fn scan_chunk(state: &mut ScanState, query: &EventLogQuery, chunk: &[u8], controller: &ScanController) -> (r: Result<(), ScanCancelled>)
    requires
        old(state).wf(query.max_events),
        old(state).scanned_total + chunk@.len() <= usize::MAX,
    ensures
        final(state).wf(query.max_events),
        ({
            let offsets = record_offsets(chunk@, 0);
            let taken = offsets.take(final(state).scanned_total - old(state).scanned_total);
            &&& old(state).scanned_total <= final(state).scanned_total <= old(state).scanned_total + offsets.len()
            &&& took_records(*old(state), *final(state), chunk@, taken, matching_offsets(chunk@, taken, query.event_ids@))
            &&& r is Ok ==> final(state).scanned_total == old(state).scanned_total + offsets.len()
        }),
        chunk@.len() < RECORD_HEADER_LEN ==> r is Ok,
        query.max_events is None ==> final(state).records@.len() == final(state).matched_total,
{
    let ghost offsets = record_offsets(chunk@, 0);
    let ghost start = *state;
    let ghost mut done: Seq<int> = Seq::empty();
    proof {
        lemma_record_offsets_bound(chunk@, 0);
        assert(offsets == done.add(record_offsets(chunk@, 0)));
        lemma_took_nothing(start, chunk@);
    }
    let mut offset: usize = 0;
    while has_room_for_header(chunk, offset)
        invariant
            offset <= chunk@.len(),
            start == *old(state),
            start.wf(query.max_events),
            state.wf(query.max_events),
            offsets == record_offsets(chunk@, 0),
            offsets.len() <= chunk@.len(),
            offsets == done.add(record_offsets(chunk@, offset as int)),
            took_records(start, *state, chunk@, done, matching_offsets(chunk@, done, query.event_ids@)),
            start.scanned_total + chunk@.len() <= usize::MAX,
        ensures
            record_offsets(chunk@, offset as int).len() == 0,
        decreases chunk@.len() - offset,
    {
        if controller.is_cancelled() {
            proof {
                assert(done == offsets.take(done.len() as int));
            }
            return Err(ScanCancelled);
        }
        let header = match next_record(chunk, offset) {
            Some(h) => h,
            None => {
                break;
            },
        };
        proof {
            let rest = record_offsets(chunk@, offset as int);
            assert(rest == seq![offset as int].add(record_offsets(chunk@, offset + header.length)));
            assert(done.len() < offsets.len());
        }
        let ghost mid = *state;
        let progress = state.absorb_record(query, chunk, offset, &header);
        match progress {
            Some(p) => controller.report(p),
            None => {},
        }
        proof {
            lemma_took_one_more(start, mid, *state, *query, chunk@, done, offset as int, header);
            let rest_after = record_offsets(chunk@, offset + header.length);
            let new_done = done.push(offset as int);
            assert(offsets == new_done.add(rest_after));
            done = new_done;
        }
        offset = offset + header.length as usize;
    }
    proof {
        assert(offsets == done);
        assert(offsets.take(done.len() as int) == done);
    }
    Ok(())
}

/// Ends a scan: reports its final progress to the controller, then hands
/// out what the scan found.
pub fn complete_scan(state: ScanState, query: &EventLogQuery, controller: &ScanController, duration_ms: u128) -> (snapshot: PreviewSnapshot)
    requires
        state.wf(query.max_events),
    ensures
        snapshot.records@ == state.records@,
        snapshot.analytics.total_logs_found == state.matched_total,
        snapshot.analytics.queue_size == kept_count(state.matched_total as nat, query.max_events),
        snapshot.scanned_records == state.scanned_total,
        snapshot.event_id_counts@ == state.event_id_counts@,
        snapshot.providers@ == state.providers@,
        snapshot.machine_names@ == state.machine_names@,
        snapshot.duration_ms == duration_ms,
        snapshot.analytics.queue_size == snapshot.records@.len(),
        query.max_events is None ==> snapshot.analytics.queue_size == snapshot.analytics.total_logs_found,
{
    controller.report(state.progress(query.source));
    state.finish(query, duration_ms)
}

/// Reads event logs: a scan of one log for the records a query asks for.
pub trait EventLogService: Send + Sync {
    /// Scans the log the query names, stopping early when the controller is
    /// cancelled; the error is a message for the user.
    fn scan(&self, query: &EventLogQuery, controller: ScanController) -> Result<PreviewSnapshot, String>;
}

/// The service on systems without a Windows event log: every scan fails.
pub struct StubEventLogService;

impl EventLogService for StubEventLogService {
    fn scan(&self, query: &EventLogQuery, controller: ScanController) -> (r: Result<PreviewSnapshot, String>)
        ensures
            r matches Err(m) && m@ == "Gerçek Event Log okuma yalnızca Windows üzerinde destekleniyor"@,
    {
        Err("Gerçek Event Log okuma yalnızca Windows üzerinde destekleniyor".to_string())
    }
}

/// One entry of the per-ID distribution: `id (count)`.
pub open spec fn distribution_entry(id: u32, count: usize) -> Seq<char> {
    decimal(id as nat) + " ("@ + decimal(count as nat) + ")"@
}

/// The entries of `pairs`, separated by `, `.
pub open spec fn distribution_text(pairs: Seq<(u32, usize)>) -> Seq<char> {
    join(pairs.map_values(|p: (u32, usize)| distribution_entry(p.0, p.1)), ", "@)
}

/// Whether `pairs` lists the entries of `counts`, each once, in increasing
/// order of event ID.
pub open spec fn lists_in_id_order(pairs: Seq<(u32, usize)>, counts: Map<u32, usize>) -> bool {
    &&& forall|i: int, j: int| 0 <= i < j < pairs.len() ==> #[trigger] pairs[i].0 < #[trigger] pairs[j].0
    &&& forall|i: int| 0 <= i < pairs.len() ==> counts.contains_key(#[trigger] pairs[i].0) && counts[pairs[i].0] == pairs[i].1
    &&& forall|id: u32| #[trigger] counts.contains_key(id) ==> exists|i: int| 0 <= i < pairs.len() && pairs[i].0 == id
}

proof fn lemma_u32_map_keys_are_ordered()
    ensures
        vstd::std_specs::btree::key_obeys_cmp_spec::<u32>(),
{
    broadcast use vstd::laws_cmp::group_laws_cmp, vstd::std_specs::btree::axiom_key_obeys_cmp_spec_meaning;
}

proof fn lemma_increasing_u32(keys: Seq<u32>)
    requires
        vstd::std_specs::btree::increasing_seq(keys),
    ensures
        forall|i: int, j: int| 0 <= i < j < keys.len() ==> keys[i] < keys[j],
{
    broadcast use vstd::std_specs::btree::axiom_increasing_seq_meaning;
    lemma_u32_keys_are_ordered();
    assert forall|i: int, j: int| 0 <= i < j < keys.len() implies keys[i] < keys[j] by {
        assert(vstd::std_specs::cmp::OrdSpec::cmp_spec(&keys[i], &keys[j]) is Less);
    }
}

/// The per-ID distribution as text: `id (count)` for each event ID, in
/// increasing order of ID, separated by `, `.
pub fn event_id_distribution(counts: &BTreeMap<u32, usize>) -> (s: String)
    ensures
        exists|pairs: Seq<(u32, usize)>| lists_in_id_order(pairs, counts@)
            && s@ == #[trigger] distribution_text(pairs),
{
    broadcast use vstd::std_specs::btree::axiom_spec_btree_map_iter;
    proof {
        lemma_u32_map_keys_are_ordered();
    }
    let it = counts.iter();
    let ghost items = it.remaining();
    let ghost pairs = items.map_values(|kv: (&u32, &usize)| (*kv.0, *kv.1));
    proof {
        lemma_increasing_u32(items.map_values(|kv: (&u32, &usize)| *kv.0));
    }
    let mut parts: Vec<String> = Vec::new();
    for kv in iter: it
        invariant
            items == iter.seq(),
            parts@.len() == iter.index(),
            forall|i: int| 0 <= i < iter.index() ==> #[trigger] parts@[i]@ == distribution_entry(*items[i].0, *items[i].1),
    {
        let (k, v) = kv;
        let mut entry = decimal_string(*k as u128);
        entry.append(" (");
        let count_text = decimal_string(*v as u128);
        entry.append(count_text.as_str());
        entry.append(")");
        parts.push(entry);
    }
    let s = join_strings(&parts, ", ");
    proof {
        assert(string_views(parts@) == pairs.map_values(|p: (u32, usize)| distribution_entry(p.0, p.1)));
        assert forall|i: int, j: int| 0 <= i < j < pairs.len() implies #[trigger] pairs[i].0 < #[trigger] pairs[j].0 by {
            assert(items.map_values(|kv: (&u32, &usize)| *kv.0)[i] == pairs[i].0);
            assert(items.map_values(|kv: (&u32, &usize)| *kv.0)[j] == pairs[j].0);
        }
        assert forall|id: u32| #[trigger] counts@.contains_key(id) implies exists|i: int| 0 <= i < pairs.len() && pairs[i].0 == id by {
            let i = choose|i: int| 0 <= i < items.len() && items[i] == (&id, &counts@[id]);
            assert(pairs[i].0 == id);
        }
        assert(lists_in_id_order(pairs, counts@));
        assert(s@ == distribution_text(pairs));
    }
    s
}

/// A record without insertion strings gets a note that names its provider
/// as exported (the decoded provider name, or `Bilinmeyen` only when the
/// record carries none) and its event ID.
pub proof fn lemma_note_names_the_provider(r: EventRecord, raw: Seq<u8>, header: RecordHeader, created_at: Seq<char>)
    requires
        is_decoded_record(r, raw, header, created_at),
        insertion_strings(raw, header).len() == 0,
    ensures
        r.message@ == r.provider@ + " kaynağındaki Event ID "@ + decimal(r.event_id as nat) + " için ileti çözümlenemedi."@,
        record_provider(raw).len() > 0 ==> r.message@ == record_provider(raw) + " kaynağındaki Event ID "@
            + decimal(r.event_id as nat) + " için ileti çözümlenemedi."@,
{
}

/// Without a record limit a scan keeps every match: the records kept are
/// as many as the matches, and so is the queue size of the outcome.
pub proof fn lemma_unlimited_scan_keeps_every_match(state: ScanState)
    requires
        state.wf(None),
    ensures
        state.records@.len() == state.matched_total,
        kept_count(state.matched_total as nat, None) == state.matched_total,
{
}

/// With a limit, a scan keeps every match until the limit is reached and
/// then exactly the limit.
pub proof fn lemma_limited_scan_keeps_up_to_the_limit(state: ScanState, limit: usize)
    requires
        state.wf(Some(limit)),
    ensures
        state.matched_total <= limit ==> state.records@.len() == state.matched_total,
        state.matched_total >= limit ==> state.records@.len() == limit,
{
}

} // verus!

use vstd::prelude::*;

use crate::byte_reader::{BufferedByteReader, ParseError};

verus! {

/// One decoded event of a track, before any time conversion.
#[derive(PartialEq, Eq, Structural, Clone, Copy, Debug)]
pub enum EventBody {
    NoteOff { key: u8, vel: u8 },
    NoteOn { key: u8, vel: u8 },
    Control { num: u8, val: u8 },
    PitchBend { lsb: u8, msb: u8 },
    Tempo { tempo: u32 },
    /// Marker text, as an offset and a length inside the track.
    Marker { at: usize, len: usize },
    EndOfTrack,
    /// An event that is consumed but not reported.
    Other,
}

/// An event as it stands in the track: its delta time in ticks, the status
/// byte in force (explicit or running), its body, and where the next event starts.
#[derive(PartialEq, Eq, Structural, Clone, Copy, Debug)]
pub struct RawEvent {
    pub delta: u64,
    pub status: u8,
    pub body: EventBody,
    pub next: usize,
}

/// A variable-length quantity at `i`: 7 data bits per byte, most significant
/// first, the top bit set on every byte but the last, at most four bytes.
pub open spec fn vlq_spec(s: Seq<u8>, i: int, acc: nat, k: nat) -> Result<(nat, int), ParseError>
    decreases 4 - k,
{
    if k >= 4 {
        Err(ParseError::Malformed(i as u64))
    } else if i < 0 || i >= s.len() {
        Err(ParseError::OutOfRange)
    } else if s[i] < 128 {
        Ok((acc * 128 + s[i] as nat, i + 1))
    } else {
        vlq_spec(s, i + 1, acc * 128 + (s[i] - 128) as nat, k + 1)
    }
}

pub open spec fn skip_spec(s: Seq<u8>, j: int, n: int, body: EventBody) -> Result<(EventBody, int), ParseError> {
    if j + n <= s.len() {
        Ok((body, j + n))
    } else {
        Err(ParseError::OutOfRange)
    }
}

/// The body of a meta event (status 0xFF) whose type byte stands at `j`.
pub open spec fn meta_spec(s: Seq<u8>, j: int, bs: nat) -> Result<(EventBody, int), ParseError> {
    if j < 0 || j >= s.len() {
        Err(ParseError::OutOfRange)
    } else {
        let kind = s[j];
        match vlq_spec(s, j + 1, 0, 0) {
            Err(e) => Err(e),
            Ok((val, k)) => if kind == 0x00 {
                skip_spec(s, k, 2, EventBody::Other)
            } else if kind == 0x06 {
                if k + val > s.len() {
                    Err(ParseError::OutOfRange)
                } else if val > bs {
                    Err(ParseError::OversizedRead)
                } else {
                    Ok((EventBody::Marker { at: k as usize, len: val as usize }, k + val))
                }
            } else if kind == 0x20 || kind == 0x21 {
                skip_spec(s, k, 1, EventBody::Other)
            } else if kind == 0x2F {
                Ok((EventBody::EndOfTrack, k))
            } else if kind == 0x51 {
                if k + 3 <= s.len() {
                    Ok((EventBody::Tempo { tempo: (s[k] * 0x10000 + s[k + 1] * 0x100 + s[k + 2]) as u32 }, k + 3))
                } else {
                    Err(ParseError::OutOfRange)
                }
            } else if kind == 0x54 {
                skip_spec(s, k, 5, EventBody::Other)
            } else if kind == 0x58 {
                skip_spec(s, k, 4, EventBody::Other)
            } else if kind == 0x59 {
                skip_spec(s, k, 2, EventBody::Other)
            } else {
                skip_spec(s, k, val as int, EventBody::Other)
            },
        }
    }
}

/// The body of an event with status `status` whose payload starts at `j`.
pub open spec fn body_spec(s: Seq<u8>, j: int, status: u8, bs: nat) -> Result<(EventBody, int), ParseError> {
    let hi = status / 16;
    if hi == 0x8 || hi == 0x9 || hi == 0xB || hi == 0xE {
        if 0 <= j && j + 2 <= s.len() {
            let a = s[j];
            let b = s[j + 1];
            let body = if hi == 0x8 {
                EventBody::NoteOff { key: a, vel: b }
            } else if hi == 0x9 {
                EventBody::NoteOn { key: a, vel: b }
            } else if hi == 0xB {
                EventBody::Control { num: a, val: b }
            } else {
                EventBody::PitchBend { lsb: a, msb: b }
            };
            Ok((body, j + 2))
        } else {
            Err(ParseError::OutOfRange)
        }
    } else if hi == 0xA {
        skip_spec(s, j, 2, EventBody::Other)
    } else if hi == 0xC || hi == 0xD {
        skip_spec(s, j, 1, EventBody::Other)
    } else if status == 0xFF {
        meta_spec(s, j, bs)
    } else if status == 0xF0 || status == 0xF7 {
        match vlq_spec(s, j, 0, 0) {
            Err(e) => Err(e),
            Ok((n, k)) => skip_spec(s, k, n as int, EventBody::Other),
        }
    } else if status == 0xF2 {
        skip_spec(s, j, 2, EventBody::Other)
    } else if status == 0xF3 {
        skip_spec(s, j, 1, EventBody::Other)
    } else {
        Ok((EventBody::Other, j))
    }
}

/// The event at `i`, given the status byte in force before it.
/// A first byte below 0x80 after the delta reuses `prev` (running status).
#[verifier::opaque]
pub open spec fn event_spec(s: Seq<u8>, i: int, prev: u8, bs: nat) -> Result<RawEvent, ParseError> {
    match vlq_spec(s, i, 0, 0) {
        Err(e) => Err(e),
        Ok((d, j)) => if j >= s.len() {
            Err(ParseError::OutOfRange)
        } else {
            let b = s[j];
            let status = if b < 0x80 { prev } else { b };
            let j2 = if b < 0x80 { j } else { j + 1 };
            match body_spec(s, j2, status, bs) {
                Err(e) => Err(e),
                Ok((body, n)) => Ok(RawEvent { delta: d as u64, status, body, next: n as usize }),
            }
        },
    }
}

/// The events from `i` up to and including the end-of-track meta event.
pub open spec fn track_from(s: Seq<u8>, i: int, prev: u8, bs: nat) -> Result<Seq<RawEvent>, ParseError>
    decreases s.len() - i,
{
    match event_spec(s, i, prev, bs) {
        Err(e) => Err(e),
        Ok(ev) => if ev.body == EventBody::EndOfTrack {
            Ok(seq![ev])
        } else if ev.next <= i || ev.next > s.len() {
            Err(ParseError::Malformed(i as u64))
        } else {
            match track_from(s, ev.next as int, ev.status, bs) {
                Err(e) => Err(e),
                Ok(rest) => Ok(seq![ev] + rest),
            }
        },
    }
}

/// The events of a whole track; an empty track holds none.
pub open spec fn track_events(s: Seq<u8>, bs: nat) -> Result<Seq<RawEvent>, ParseError> {
    if s.len() == 0 {
        Ok(Seq::empty())
    } else {
        track_from(s, 0, 0, bs)
    }
}

/// `r` is what remains of `whole` once the events `done` were taken from its front.
pub open spec fn prepend(done: Seq<RawEvent>, r: Result<Seq<RawEvent>, ParseError>) -> Result<Seq<RawEvent>, ParseError> {
    match r {
        Ok(rest) => Ok(done + rest),
        Err(e) => Err(e),
    }
}

pub open spec fn same_window(a: BufferedByteReader, b: BufferedByteReader) -> bool {
    &&& a.window == b.window
    &&& a.start == b.start
    &&& a.len == b.len
    &&& a.buf_size == b.buf_size
}

pub open spec fn vlq_result(r: Result<u64, ParseError>, v: Result<(nat, int), ParseError>, after: int) -> bool {
    match v {
        Ok((n, k)) => r == Ok::<u64, ParseError>(n as u64) && after == k && n < 0x10000000,
        Err(e) => r == Err::<u64, ParseError>(e),
    }
}

proof fn lemma_vlq_bound(s: Seq<u8>, i: int, acc: nat, k: nat)
    requires
        k <= 4,
        acc < pow128(k),
    ensures
        vlq_spec(s, i, acc, k) matches Ok((n, j)) ==> n < 0x10000000 && j > i && j <= s.len(),
    decreases 4 - k,
{
    if k < 4 && 0 <= i < s.len() {
        if s[i] >= 128 {
            assert(acc * 128 + (s[i] - 128) < pow128(k) * 128) by (nonlinear_arith)
                requires acc < pow128(k), s[i] - 128 < 128;
            lemma_vlq_bound(s, i + 1, acc * 128 + (s[i] - 128) as nat, k + 1);
        } else {
            assert(acc * 128 + s[i] < pow128(k) * 128) by (nonlinear_arith)
                requires acc < pow128(k), s[i] < 128;
            assert(pow128(k) * 128 <= 0x10000000) by {
                reveal_with_fuel(pow128, 5);
            }
        }
    }
}

pub open spec fn pow128(k: nat) -> nat
    decreases k,
{
    if k == 0 { 1 } else { 128 * pow128((k - 1) as nat) }
}

/// Reads a variable-length quantity at the cursor.
pub fn read_vlq(rdr: &mut BufferedByteReader) -> (r: Result<u64, ParseError>)
    requires
        old(rdr).wf(),
    ensures
        final(rdr).wf(),
        same_window(*old(rdr), *final(rdr)),
        vlq_result(r, vlq_spec(old(rdr).window@, old(rdr).rel(), 0, 0), final(rdr).rel()),
{
    let ghost s = rdr.window@;
    let ghost i0 = rdr.rel();
    proof {
        lemma_vlq_bound(s, i0, 0, 0);
    }
    let mut n: u64 = 0;
    let mut k: u64 = 0;
    while k < 4
        invariant
            rdr.wf(),
            same_window(*old(rdr), *rdr),
            s == rdr.window@,
            s == old(rdr).window@,
            i0 == old(rdr).rel(),
            k <= 4,
            n < pow128(k as nat),
            pow128(k as nat) <= 0x10000000,
            vlq_spec(s, i0, 0, 0) == vlq_spec(s, rdr.rel(), n as nat, k as nat),
        decreases 4 - k,
    {
        let ghost p = rdr.rel();
        let b = match rdr.read_byte() {
            Ok(b) => b,
            Err(e) => {
                assert(vlq_spec(s, p, n as nat, k as nat) == Err::<(nat, int), ParseError>(ParseError::OutOfRange));
                return Err(e);
            },
        };
        assert(b == s[p]);
        assert(pow128(k as nat) <= 0x200000) by {
            reveal_with_fuel(pow128, 5);
        }
        if b < 128 {
            assert(vlq_spec(s, p, n as nat, k as nat) == Ok::<(nat, int), ParseError>(((n * 128 + b) as nat, p + 1)));
            assert(n * 128 + b < 0x10000000) by (nonlinear_arith)
                requires n < 0x200000, b < 128;
            n = n * 128 + b as u64;
            return Ok(n);
        }
        assert(n * 128 + (b - 128) < pow128(k as nat) * 128) by (nonlinear_arith)
            requires n < pow128(k as nat), b - 128 < 128;
        assert(vlq_spec(s, p, n as nat, k as nat) == vlq_spec(s, p + 1, (n * 128 + (b - 128)) as nat, (k + 1) as nat));
        n = n * 128 + (b - 128) as u64;
        k = k + 1;
        assert(pow128(k as nat) <= 0x10000000) by {
            reveal_with_fuel(pow128, 5);
        }
    }
    Err(ParseError::Malformed((rdr.pos - rdr.start) as u64))
}

pub open spec fn body_result(r: Result<EventBody, ParseError>, v: Result<(EventBody, int), ParseError>, after: int) -> bool {
    match v {
        Ok((b, n)) => r == Ok::<EventBody, ParseError>(b) && after == n,
        Err(e) => r == Err::<EventBody, ParseError>(e),
    }
}

pub open spec fn event_result(r: Result<RawEvent, ParseError>, v: Result<RawEvent, ParseError>, after: int) -> bool {
    match v {
        Ok(ev) => r == Ok::<RawEvent, ParseError>(ev) && after == ev.next,
        Err(e) => r == Err::<RawEvent, ParseError>(e),
    }
}

fn skip_body(rdr: &mut BufferedByteReader, n: usize, body: EventBody) -> (r: Result<EventBody, ParseError>)
    requires
        old(rdr).wf(),
    ensures
        final(rdr).wf(),
        same_window(*old(rdr), *final(rdr)),
        body_result(r, skip_spec(old(rdr).window@, old(rdr).rel(), n as int, body), final(rdr).rel()),
{
    match rdr.skip_bytes(n) {
        Ok(()) => Ok(body),
        Err(e) => Err(e),
    }
}

fn read_meta(rdr: &mut BufferedByteReader) -> (r: Result<EventBody, ParseError>)
    requires
        old(rdr).wf(),
    ensures
        final(rdr).wf(),
        same_window(*old(rdr), *final(rdr)),
        body_result(r, meta_spec(old(rdr).window@, old(rdr).rel(), old(rdr).buf_size as nat), final(rdr).rel()),
{
    let ghost s = rdr.window@;
    let kind = match rdr.read_byte() {
        Ok(b) => b,
        Err(e) => return Err(e),
    };
    let val = match read_vlq(rdr) {
        Ok(v) => v,
        Err(e) => return Err(e),
    };
    if kind == 0x00 {
        skip_body(rdr, 2, EventBody::Other)
    } else if kind == 0x06 {
        let at: usize = rdr.pos - rdr.start;
        if val as usize > rdr.len - at {
            return Err(ParseError::OutOfRange);
        }
        if val as usize > rdr.buf_size {
            return Err(ParseError::OversizedRead);
        }
        skip_body(rdr, val as usize, EventBody::Marker { at, len: val as usize })
    } else if kind == 0x20 || kind == 0x21 {
        skip_body(rdr, 1, EventBody::Other)
    } else if kind == 0x2F {
        Ok(EventBody::EndOfTrack)
    } else if kind == 0x51 {
        let ghost k = rdr.rel();
        let a = match rdr.read_byte() {
            Ok(b) => b,
            Err(e) => return Err(e),
        };
        let b = match rdr.read_byte() {
            Ok(b) => b,
            Err(e) => return Err(e),
        };
        let c = match rdr.read_byte() {
            Ok(b) => b,
            Err(e) => return Err(e),
        };
        assert(a == s[k] && b == s[k + 1] && c == s[k + 2]);
        Ok(EventBody::Tempo { tempo: a as u32 * 0x10000 + b as u32 * 0x100 + c as u32 })
    } else if kind == 0x54 {
        skip_body(rdr, 5, EventBody::Other)
    } else if kind == 0x58 {
        skip_body(rdr, 4, EventBody::Other)
    } else if kind == 0x59 {
        skip_body(rdr, 2, EventBody::Other)
    } else {
        skip_body(rdr, val as usize, EventBody::Other)
    }
}

fn read_two(rdr: &mut BufferedByteReader) -> (r: Result<(u8, u8), ParseError>)
    requires
        old(rdr).wf(),
    ensures
        final(rdr).wf(),
        same_window(*old(rdr), *final(rdr)),
        old(rdr).rel() + 2 <= old(rdr).len <==> r is Ok,
        r is Err ==> r == Err::<(u8, u8), ParseError>(ParseError::OutOfRange),
        r matches Ok((a, b)) ==> {
            &&& a == old(rdr).window@[old(rdr).rel()]
            &&& b == old(rdr).window@[old(rdr).rel() + 1]
            &&& final(rdr).rel() == old(rdr).rel() + 2
        },
{
    let a = match rdr.read_byte() {
        Ok(b) => b,
        Err(e) => return Err(e),
    };
    let b = match rdr.read_byte() {
        Ok(b) => b,
        Err(e) => return Err(e),
    };
    Ok((a, b))
}

fn read_body(rdr: &mut BufferedByteReader, status: u8) -> (r: Result<EventBody, ParseError>)
    requires
        old(rdr).wf(),
    ensures
        final(rdr).wf(),
        same_window(*old(rdr), *final(rdr)),
        body_result(r, body_spec(old(rdr).window@, old(rdr).rel(), status, old(rdr).buf_size as nat), final(rdr).rel()),
{
    let hi: u8 = status / 16;
    if hi == 0x8 || hi == 0x9 || hi == 0xB || hi == 0xE {
        let (a, b) = match read_two(rdr) {
            Ok(p) => p,
            Err(e) => return Err(e),
        };
        if hi == 0x8 {
            Ok(EventBody::NoteOff { key: a, vel: b })
        } else if hi == 0x9 {
            Ok(EventBody::NoteOn { key: a, vel: b })
        } else if hi == 0xB {
            Ok(EventBody::Control { num: a, val: b })
        } else {
            Ok(EventBody::PitchBend { lsb: a, msb: b })
        }
    } else if hi == 0xA {
        skip_body(rdr, 2, EventBody::Other)
    } else if hi == 0xC || hi == 0xD {
        skip_body(rdr, 1, EventBody::Other)
    } else if status == 0xFF {
        read_meta(rdr)
    } else if status == 0xF0 || status == 0xF7 {
        let n = match read_vlq(rdr) {
            Ok(v) => v,
            Err(e) => return Err(e),
        };
        skip_body(rdr, n as usize, EventBody::Other)
    } else if status == 0xF2 {
        skip_body(rdr, 2, EventBody::Other)
    } else if status == 0xF3 {
        skip_body(rdr, 1, EventBody::Other)
    } else {
        Ok(EventBody::Other)
    }
}

/// Decodes the event at the cursor; `prev` is the status byte in force.
pub fn read_event(rdr: &mut BufferedByteReader, prev: u8) -> (r: Result<RawEvent, ParseError>)
    requires
        old(rdr).wf(),
    ensures
        final(rdr).wf(),
        same_window(*old(rdr), *final(rdr)),
        event_result(r, event_spec(old(rdr).window@, old(rdr).rel(), prev, old(rdr).buf_size as nat), final(rdr).rel()),
{
    let ghost s = rdr.window@;
    proof {
        reveal(event_spec);
    }
    let delta = match read_vlq(rdr) {
        Ok(v) => v,
        Err(e) => return Err(e),
    };
    let ghost j = rdr.rel();
    let b = match rdr.read_byte() {
        Ok(b) => b,
        Err(e) => return Err(e),
    };
    assert(b == s[j]);
    let status: u8 = if b < 0x80 {
        match rdr.seek(-1, 1) {
            Ok(()) => {},
            Err(e) => return Err(e),
        }
        prev
    } else {
        b
    };
    let body = match read_body(rdr, status) {
        Ok(body) => body,
        Err(e) => return Err(e),
    };
    Ok(RawEvent { delta, status, body, next: rdr.pos - rdr.start })
}

/// A tempo change: absolute tick, the time in microseconds at that tick, and
/// the new tempo in microseconds per quarter note.
#[derive(PartialEq, Eq, Structural, Clone, Copy, Debug)]
pub struct TempoEvent {
    pub time: u64,
    pub time_norm: u64,
    pub tempo: u32,
}

/// The kinds of meta event that are kept.
#[derive(PartialEq, Eq, Structural, Clone, Copy, Debug)]
pub enum MetaEventName {
    Marker,
    TimeSignature,
    KeySignature,
}

/// A kept meta event: its time in microseconds and its raw payload.
pub struct MetaEvent {
    pub time: u64,
    pub meta_name: MetaEventName,
    pub data: Vec<u8>,
}

/// The kinds of channel event that are emitted.
#[derive(PartialEq, Eq, Structural, Clone, Copy, Debug)]
pub enum MIDIEventType {
    NoteOff,
    NoteOn,
    ControlEvent,
    PitchBend,
}

/// A channel event: its time in microseconds, its kind, and the bytes
/// `[channel, a, b]` (key and velocity, controller and value, or the two
/// pitch-bend bytes, low first).
#[derive(PartialEq, Eq, Clone, Copy, Debug)]
pub struct MIDIEvent {
    pub time: u64,
    pub command: MIDIEventType,
    pub data: [u8; 3],
}

/// A note span on one key. Times are microseconds or ticks, as chosen when
/// parsing. A note whose off event never came keeps `end == NOTE_END_UNMATCHED`.
#[derive(PartialEq, Eq, Structural, Clone, Copy, Debug)]
pub struct Note {
    pub start: u32,
    pub end: u32,
    pub channel: u8,
    pub track: usize,
    pub velocity: u8,
}

/// The end of a note that no off event closed.
pub const NOTE_END_UNMATCHED: u32 = 0xFFFF_FFFF;

/// The tempo in force before any tempo event, in microseconds per quarter note.
pub const DEFAULT_TEMPO: u32 = 500000;

/// Ticks from the start of the track to the end of its first `n` events.
pub open spec fn ticks_upto(evs: Seq<RawEvent>, n: int) -> nat
    decreases n,
{
    if n <= 0 || evs.len() == 0 {
        0
    } else {
        (ticks_upto(evs, n - 1) + evs[n - 1].delta) as nat
    }
}

/// The tempo events among the first `n` events, stamped with their tick.
pub open spec fn tempo_map_of(evs: Seq<RawEvent>, n: int) -> Seq<TempoEvent>
    decreases n,
{
    if n <= 0 {
        Seq::empty()
    } else {
        let prior = tempo_map_of(evs, n - 1);
        match evs[n - 1].body {
            EventBody::Tempo { tempo } => prior.push(
                TempoEvent { time: ticks_upto(evs, n) as u64, time_norm: 0, tempo },
            ),
            _ => prior,
        }
    }
}

/// How many of the first `n` events are note-ons with a non-zero velocity.
pub open spec fn note_count_of(evs: Seq<RawEvent>, n: int) -> nat
    decreases n,
{
    if n <= 0 {
        0
    } else {
        note_count_of(evs, n - 1) + match evs[n - 1].body {
            EventBody::NoteOn { key, vel } => if vel > 0 { 1nat } else { 0nat },
            _ => 0nat,
        }
    }
}

/// The lowest and highest key of any note-on among the first `n` events,
/// starting from `[255, 0]`.
pub open spec fn key_range_of(evs: Seq<RawEvent>, n: int) -> (u8, u8)
    decreases n,
{
    if n <= 0 {
        (255u8, 0u8)
    } else {
        let (lo, hi) = key_range_of(evs, n - 1);
        match evs[n - 1].body {
            EventBody::NoteOn { key, vel } => (
                if key < lo { key } else { lo },
                if key > hi { key } else { hi },
            ),
            _ => (lo, hi),
        }
    }
}

proof fn lemma_event_progress(s: Seq<u8>, i: int, prev: u8, bs: nat)
    requires
        0 <= i,
        s.len() <= usize::MAX,
    ensures
        event_spec(s, i, prev, bs) matches Ok(ev) ==> i < ev.next <= s.len() && ev.delta < 0x10000000,
        event_spec(s, i, prev, bs) matches Ok(ev) ==> (ev.body matches EventBody::Marker { at, len } ==> at + len <= s.len()),
        event_spec(s, i, prev, bs) matches Ok(ev) ==> (ev.body matches EventBody::Tempo { tempo } ==> tempo < 0x1000000),
{
    reveal(event_spec);
    lemma_vlq_bound(s, i, 0, 0);
    if let Ok((d, j)) = vlq_spec(s, i, 0, 0) {
        lemma_vlq_bound(s, j, 0, 0);
        lemma_vlq_bound(s, j + 1, 0, 0);
        lemma_vlq_bound(s, j + 2, 0, 0);
    }
}

/// A decoded track holds no more events than it has bytes.
pub proof fn lemma_track_len(s: Seq<u8>, i: int, prev: u8, bs: nat)
    requires
        0 <= i,
        s.len() <= usize::MAX,
    ensures
        track_from(s, i, prev, bs) matches Ok(evs) ==> evs.len() <= s.len() - i,
    decreases s.len() - i,
{
    lemma_event_progress(s, i, prev, bs);
    if let Ok(ev) = event_spec(s, i, prev, bs) {
        if ev.body != EventBody::EndOfTrack && ev.next > i && ev.next <= s.len() {
            lemma_track_len(s, ev.next as int, ev.status, bs);
        }
    }
}

proof fn lemma_ticks_step(evs: Seq<RawEvent>, ev: RawEvent)
    ensures
        ticks_upto(evs.push(ev), evs.len() as int + 1) == ticks_upto(evs, evs.len() as int) + ev.delta,
        tempo_map_of(evs.push(ev), evs.len() as int + 1) == match ev.body {
            EventBody::Tempo { tempo } => tempo_map_of(evs, evs.len() as int).push(
                TempoEvent { time: (ticks_upto(evs, evs.len() as int) + ev.delta) as u64, time_norm: 0, tempo },
            ),
            _ => tempo_map_of(evs, evs.len() as int),
        },
        note_count_of(evs.push(ev), evs.len() as int + 1) == note_count_of(evs, evs.len() as int) + match ev.body {
            EventBody::NoteOn { key, vel } => if vel > 0 { 1nat } else { 0nat },
            _ => 0nat,
        },
        key_range_of(evs.push(ev), evs.len() as int + 1) == ({
            let (lo, hi) = key_range_of(evs, evs.len() as int);
            match ev.body {
                EventBody::NoteOn { key, vel } => (
                    if key < lo { key } else { lo },
                    if key > hi { key } else { hi },
                ),
                _ => (lo, hi),
            }
        }),
{
    lemma_prefix_agree(evs, ev, evs.len() as int);
}

proof fn lemma_prefix_agree(evs: Seq<RawEvent>, ev: RawEvent, n: int)
    requires
        n <= evs.len(),
    ensures
        ticks_upto(evs.push(ev), n) == ticks_upto(evs, n),
        tempo_map_of(evs.push(ev), n) == tempo_map_of(evs, n),
        note_count_of(evs.push(ev), n) == note_count_of(evs, n),
        key_range_of(evs.push(ev), n) == key_range_of(evs, n),
    decreases n,
{
    if n > 0 {
        lemma_prefix_agree(evs, ev, n - 1);
        assert(evs.push(ev)[n - 1] == evs[n - 1]);
    }
}

/// The parse state of one track: pass one collects the tempo events, the note
/// count and the key range; pass two emits timed events and note spans.
pub struct MIDITrack {
    pub rdr: BufferedByteReader,
    pub ended: bool,
    pub prev_cmd: u8,
    pub ppq: u16,
    pub track_num: usize,
    pub tick_based_parsing: bool,
    /// Absolute tick reached by the pass in progress.
    pub track_len: u64,
    pub note_count: u64,
    pub key_range: (u8, u8),
    pub tempo_evs: Vec<TempoEvent>,
    pub midi_evs: Vec<MIDIEvent>,
    pub meta_evs: Vec<MetaEvent>,
    /// Notes per key, in the order their on events came.
    pub notes: Vec<Vec<Note>>,
    /// Per key and channel (`key * 16 + channel`), the open notes as
    /// (index into `notes[key]`, on velocity), the latest last.
    pub unended_notes: Vec<Vec<(usize, u8)>>,
    /// Pass two's place in the tempo map: the next tempo event, the tick and
    /// tempo-weighted tick count where the current tempo took effect, and that tempo.
    pub tempo_id: usize,
    pub seg_tick: u64,
    pub weight: u128,
    pub cur_tempo: u32,
    /// The events that the pass in progress has consumed.
    pub done: Ghost<Seq<RawEvent>>,
}

impl MIDITrack {
    /// The decoded events of the whole track.
    pub open spec fn events(&self) -> Result<Seq<RawEvent>, ParseError> {
        track_events(self.rdr.window@, self.rdr.buf_size as nat)
    }

    /// Where the pass in progress stands relative to the decoded track.
    pub open spec fn cursor_ok(&self) -> bool {
        &&& self.rdr.wf()
        &&& self.rdr.len <= u32::MAX
        &&& self.done@.len() <= self.rdr.rel()
        &&& self.track_len == ticks_upto(self.done@, self.done@.len() as int)
        &&& self.track_len <= self.rdr.rel() * 0x10000000
        &&& if self.ended {
            self.events() == Ok::<Seq<RawEvent>, ParseError>(self.done@)
        } else {
            &&& self.rdr.len > 0
            &&& self.events() == prepend(
                self.done@,
                track_from(self.rdr.window@, self.rdr.rel(), self.prev_cmd, self.rdr.buf_size as nat),
            )
        }
    }

    /// Pass one's own state matches the events consumed so far.
    pub open spec fn pass_one_ok(&self) -> bool {
        &&& self.cursor_ok()
        &&& self.ppq > 0
        &&& self.tempo_evs@ == tempo_map_of(self.done@, self.done@.len() as int)
        &&& tempo_map_ok(self.tempo_evs@)
        &&& forall|i: int| 0 <= i < self.tempo_evs@.len() ==> #[trigger] self.tempo_evs@[i].time <= self.track_len
        &&& self.note_count == note_count_of(self.done@, self.done@.len() as int)
        &&& self.note_count <= self.done@.len()
        &&& self.key_range == key_range_of(self.done@, self.done@.len() as int)
    }

    /// A parser for the track at `loc` in `source`, ready for pass one.
    pub fn new(t_num: usize, ppq: u16, source: &[u8], loc: &crate::midi_file::TrackPointer, tick_based_parsing: bool) -> (r: Result<Self, ParseError>)
        requires
            ppq > 0,
        ensures
            loc.start as int + loc.len as int <= source@.len() <==> r is Ok,
            r is Err ==> r == Err::<Self, ParseError>(ParseError::OutOfRange),
            r matches Ok(t) ==> {
                &&& t.pass_one_ok()
                &&& t.done@.len() == 0
                &&& t.rdr.window@ == source@.subrange(loc.start as int, loc.start + loc.len)
                &&& t.rdr.buf_size == TRACK_BUFFER_SIZE
                &&& t.midi_evs@.len() == 0 && t.meta_evs@.len() == 0
                &&& t.notes@.len() == 0 && t.unended_notes@.len() == 0
                &&& t.ppq == ppq && t.track_num == t_num && t.tick_based_parsing == tick_based_parsing
            },
    {
        if loc.start > source.len() as u64 {
            return Err(ParseError::OutOfRange);
        }
        let rdr = match BufferedByteReader::new(source, loc.start as usize, loc.len as usize, TRACK_BUFFER_SIZE) {
            Ok(r) => r,
            Err(e) => return Err(e),
        };
        let ended = rdr.len == 0;
        let t = MIDITrack {
            rdr,
            ended,
            prev_cmd: 0,
            ppq,
            track_num: t_num,
            tick_based_parsing,
            track_len: 0,
            note_count: 0,
            key_range: (255, 0),
            tempo_evs: Vec::new(),
            midi_evs: Vec::new(),
            meta_evs: Vec::new(),
            notes: Vec::new(),
            unended_notes: Vec::new(),
            tempo_id: 0,
            seg_tick: 0,
            weight: 0,
            cur_tempo: DEFAULT_TEMPO,
            done: Ghost(Seq::empty()),
        };
        proof {
            if !ended {
                assert(Seq::<RawEvent>::empty() + track_from(t.rdr.window@, 0, 0, t.rdr.buf_size as nat)->Ok_0
                    =~= track_from(t.rdr.window@, 0, 0, t.rdr.buf_size as nat)->Ok_0);
            }
        }
        Ok(t)
    }

    /// Consumes one event for pass one. On an error the whole track fails
    /// with that error.
    pub fn parse_ev(&mut self) -> (r: Result<(), ParseError>)
        requires
            old(self).pass_one_ok(),
        ensures
            r is Ok ==> final(self).pass_one_ok(),
            r is Ok ==> final(self).events() == old(self).events() && final(self).ppq == old(self).ppq,
            r is Ok ==> old(self).ended || final(self).rdr.rel() > old(self).rdr.rel(),
            r is Ok ==> final(self).rdr.len == old(self).rdr.len,
            r is Ok ==> same_window(old(self).rdr, final(self).rdr),
            r is Ok ==> final(self).track_num == old(self).track_num,
            r is Ok ==> final(self).tick_based_parsing == old(self).tick_based_parsing,
            old(self).ended ==> r is Ok && *final(self) == *old(self),
            r matches Err(e) ==> old(self).events() == Err::<Seq<RawEvent>, ParseError>(e),
            !old(self).ended && event_spec(old(self).rdr.window@, old(self).rdr.rel(), old(self).prev_cmd, old(self).rdr.buf_size as nat) is Ok
                ==> r is Ok,
            !old(self).ended ==> (r matches Err(e) ==> event_spec(old(self).rdr.window@, old(self).rdr.rel(), old(self).prev_cmd,
                old(self).rdr.buf_size as nat) == Err::<RawEvent, ParseError>(e)),
            !old(self).ended && r is Ok ==> ({
                let ev = event_spec(old(self).rdr.window@, old(self).rdr.rel(), old(self).prev_cmd, old(self).rdr.buf_size as nat)->Ok_0;
                &&& final(self).done@ == old(self).done@.push(ev)
                &&& final(self).rdr.rel() == ev.next
                &&& final(self).prev_cmd == ev.status
                &&& final(self).ended == (ev.body == EventBody::EndOfTrack)
                &&& final(self).track_len == old(self).track_len + ev.delta
            }),
            final(self).midi_evs == old(self).midi_evs,
            final(self).notes == old(self).notes,
            final(self).meta_evs == old(self).meta_evs,
            final(self).unended_notes == old(self).unended_notes,
    {
        if self.ended {
            return Ok(());
        }
        let ghost s = self.rdr.window@;
        let ghost bs = self.rdr.buf_size as nat;
        let ghost i = self.rdr.rel();
        proof {
            assert(s.len() == self.rdr.len);
            lemma_event_progress(s, i, self.prev_cmd, bs);
        }
        let ev = match read_event(&mut self.rdr, self.prev_cmd) {
            Ok(ev) => ev,
            Err(e) => return Err(e),
        };
        let ghost old_done = self.done@;
        proof {
            lemma_ticks_step(old_done, ev);
            assert(ev.delta as int <= 0x10000000);
            assert((self.track_len + ev.delta) as int <= self.rdr.rel() * 0x10000000) by (nonlinear_arith)
                requires
                    self.track_len <= i * 0x10000000,
                    ev.delta <= 0x10000000,
                    i + 1 <= self.rdr.rel();
        }
        self.track_len = self.track_len + ev.delta;
        self.prev_cmd = ev.status;
        self.done = Ghost(old_done.push(ev));
        match ev.body {
            EventBody::NoteOn { key, vel } => {
                if key < self.key_range.0 {
                    self.key_range.0 = key;
                }
                if key > self.key_range.1 {
                    self.key_range.1 = key;
                }
                if vel > 0 {
                    self.note_count = self.note_count + 1;
                }
            },
            EventBody::Tempo { tempo } => {
                let ghost te0 = self.tempo_evs@;
                self.tempo_evs.push(TempoEvent { time: self.track_len, time_norm: 0, tempo });
                proof {
                    assert forall|a: int, b: int| 0 <= a <= b < self.tempo_evs@.len() implies
                        self.tempo_evs@[a].time <= self.tempo_evs@[b].time by {
                        if b < te0.len() {
                            assert(self.tempo_evs@[a] == te0[a] && self.tempo_evs@[b] == te0[b]);
                        } else if a < te0.len() {
                            assert(self.tempo_evs@[a] == te0[a]);
                        }
                    }
                    assert forall|a: int| 0 <= a < self.tempo_evs@.len() implies self.tempo_evs@[a].tempo < 0x1000000
                        && self.tempo_evs@[a].time < 0x1000000000000000 by {
                        if a < te0.len() {
                            assert(self.tempo_evs@[a] == te0[a]);
                        }
                    }
                }
            },
            EventBody::EndOfTrack => {
                self.ended = true;
            },
            _ => {},
        }
        proof {
            let rest = track_from(s, ev.next as int, ev.status, bs);
            if ev.body == EventBody::EndOfTrack {
                assert(old_done + seq![ev] =~= old_done.push(ev));
            } else {
                if let Ok(rs) = rest {
                    assert(old_done + (seq![ev] + rs) =~= old_done.push(ev) + rs);
                }
            }
        }
        Ok(())
    }
}

/// Tempo-weighted ticks from tick `t` (tempo `cur` in force, tempo event `id`
/// next) up to `tick`: the sum over tempo segments of ticks times tempo.
pub open spec fn integ(tmap: Seq<TempoEvent>, id: int, t: int, cur: int, tick: int) -> int
    decreases tmap.len() - id,
{
    if 0 <= id < tmap.len() && tmap[id].time < tick {
        (tmap[id].time - t) * cur + integ(tmap, id + 1, tmap[id].time as int, tmap[id].tempo as int, tick)
    } else {
        (tick - t) * cur
    }
}

/// Tempo-weighted ticks from the start of the song to `tick`. Divided by
/// the ticks per quarter note, it is the time in microseconds.
pub open spec fn tick_weight(tmap: Seq<TempoEvent>, tick: int) -> int {
    integ(tmap, 0, 0, DEFAULT_TEMPO as int, tick)
}

pub open spec fn sat64(x: int) -> u64 {
    if x > u64::MAX { u64::MAX } else { x as u64 }
}

pub open spec fn sat32(x: int) -> u32 {
    if x > u32::MAX { u32::MAX } else { x as u32 }
}

/// The time of `tick` in microseconds.
pub open spec fn micros_at(tmap: Seq<TempoEvent>, tick: int, ppq: nat) -> u64 {
    sat64(tick_weight(tmap, tick) / ppq as int)
}

/// The time stamped on a note starting or ending at `tick`.
pub open spec fn note_time(tmap: Seq<TempoEvent>, tick: int, ppq: nat, tick_based: bool) -> u32 {
    if tick_based { sat32(tick) } else { sat32(micros_at(tmap, tick, ppq) as int) }
}

/// A usable tempo map: sorted by tick, every tempo a 24-bit value, every
/// tick below 2^60 (what a track of at most 2^32 bytes can reach).
pub open spec fn tempo_map_ok(tmap: Seq<TempoEvent>) -> bool {
    &&& forall|i: int, j: int| 0 <= i <= j < tmap.len() ==> tmap[i].time <= tmap[j].time
    &&& forall|i: int| 0 <= i < tmap.len() ==> tmap[i].tempo < 0x1000000
    &&& forall|i: int| 0 <= i < tmap.len() ==> tmap[i].time < 0x1000000000000000
}

/// What a `MetaEvent` holds, as plain values.
pub struct MetaView {
    pub time: u64,
    pub meta_name: MetaEventName,
    pub data: Seq<u8>,
}

impl View for MetaEvent {
    type V = MetaView;

    open spec fn view(&self) -> MetaView {
        MetaView { time: self.time, meta_name: self.meta_name, data: self.data@ }
    }
}

/// Pass two's output and open notes, as plain values.
pub struct PassTwo {
    pub evs: Seq<MIDIEvent>,
    pub notes: Seq<Seq<Note>>,
    pub stacks: Seq<Seq<(usize, u8)>>,
    pub metas: Seq<MetaView>,
}

pub open spec fn pass_two_init() -> PassTwo {
    PassTwo {
        evs: Seq::empty(),
        notes: Seq::new(256, |k: int| Seq::empty()),
        stacks: Seq::new(4096, |k: int| Seq::empty()),
        metas: Seq::empty(),
    }
}

/// Closes the latest open note on (`key`, `ch`), if any, at `nt`; also
/// gives back that note's on velocity.
pub open spec fn close_spec(st: PassTwo, key: u8, ch: u8, nt: u32) -> (PassTwo, Option<u8>) {
    let idx = key as int * 16 + ch as int;
    let stk = st.stacks[idx];
    if stk.len() == 0 {
        (st, None)
    } else {
        let id = stk.last().0 as int;
        let v = stk.last().1;
        let n = st.notes[key as int][id];
        (PassTwo {
            notes: st.notes.update(key as int, st.notes[key as int].update(id, Note { end: nt, velocity: v, ..n })),
            stacks: st.stacks.update(idx, stk.drop_last()),
            ..st
        }, Some(v))
    }
}

/// Pass two's handling of one event at time `tm` (microseconds), note time `nt`.
pub open spec fn pass_two_step(st: PassTwo, ev: RawEvent, s: Seq<u8>, tm: u64, nt: u32, track: usize) -> PassTwo {
    let ch = ev.status % 16;
    match ev.body {
        EventBody::NoteOff { key, vel } => {
            let (st2, m) = close_spec(st, key, ch, nt);
            let v = match m { Some(v) => v, None => vel };
            PassTwo { evs: st2.evs.push(MIDIEvent { time: tm, command: MIDIEventType::NoteOff, data: [ch, key, v] }), ..st2 }
        },
        EventBody::NoteOn { key, vel } => if vel == 0 {
            let (st2, m) = close_spec(st, key, ch, nt);
            PassTwo { evs: st2.evs.push(MIDIEvent { time: tm, command: MIDIEventType::NoteOff, data: [ch, key, 0u8] }), ..st2 }
        } else {
            let idx = key as int * 16 + ch as int;
            PassTwo {
                evs: st.evs.push(MIDIEvent { time: tm, command: MIDIEventType::NoteOn, data: [ch, key, vel] }),
                notes: st.notes.update(key as int, st.notes[key as int].push(
                    Note { start: nt, end: NOTE_END_UNMATCHED, channel: ch, track, velocity: vel },
                )),
                stacks: st.stacks.update(idx, st.stacks[idx].push((st.notes[key as int].len() as usize, vel))),
                ..st
            }
        },
        EventBody::Control { num, val } => PassTwo {
            evs: st.evs.push(MIDIEvent { time: tm, command: MIDIEventType::ControlEvent, data: [ch, num, val] }),
            ..st
        },
        EventBody::PitchBend { lsb, msb } => PassTwo {
            evs: st.evs.push(MIDIEvent { time: tm, command: MIDIEventType::PitchBend, data: [ch, lsb, msb] }),
            ..st
        },
        EventBody::Marker { at, len } => PassTwo {
            metas: st.metas.push(MetaView { time: tm, meta_name: MetaEventName::Marker, data: s.subrange(at as int, at + len) }),
            ..st
        },
        _ => st,
    }
}

/// Pass two's state after the first `n` events.
pub open spec fn pass_two_fold(
    s: Seq<u8>,
    evs: Seq<RawEvent>,
    n: int,
    tmap: Seq<TempoEvent>,
    ppq: nat,
    tick_based: bool,
    track: usize,
) -> PassTwo
    decreases n,
{
    if n <= 0 {
        pass_two_init()
    } else {
        let tick = ticks_upto(evs, n) as int;
        pass_two_step(
            pass_two_fold(s, evs, n - 1, tmap, ppq, tick_based, track),
            evs[n - 1],
            s,
            micros_at(tmap, tick, ppq),
            note_time(tmap, tick, ppq, tick_based),
            track,
        )
    }
}

/// Every open note points at a note of its key.
pub open spec fn stacks_ok(st: PassTwo) -> bool {
    &&& st.notes.len() == 256
    &&& st.stacks.len() == 4096
    &&& forall|i: int, j: int| 0 <= i < 4096 && 0 <= j < st.stacks[i].len() ==>
        (#[trigger] st.stacks[i][j]).0 < st.notes[i / 16].len()
}

proof fn lemma_fold_prefix(s: Seq<u8>, evs: Seq<RawEvent>, ev: RawEvent, n: int, tmap: Seq<TempoEvent>, ppq: nat, tb: bool, track: usize)
    requires
        n <= evs.len(),
    ensures
        pass_two_fold(s, evs.push(ev), n, tmap, ppq, tb, track) == pass_two_fold(s, evs, n, tmap, ppq, tb, track),
    decreases n,
{
    if n > 0 {
        lemma_fold_prefix(s, evs, ev, n - 1, tmap, ppq, tb, track);
        lemma_prefix_agree(evs, ev, n);
        assert(evs.push(ev)[n - 1] == evs[n - 1]);
    }
}

/// Makes `n` empty lists.
fn empty_lists<T>(n: usize) -> (r: Vec<Vec<T>>)
    ensures
        r@.len() == n,
        forall|i: int| 0 <= i < n ==> (#[trigger] r@[i])@ == Seq::<T>::empty(),
{
    let mut r: Vec<Vec<T>> = Vec::new();
    let mut i: usize = 0;
    while i < n
        invariant
            i <= n,
            r@.len() == i,
            forall|j: int| 0 <= j < i ==> (#[trigger] r@[j])@ == Seq::<T>::empty(),
        decreases n - i,
    {
        let e: Vec<T> = Vec::new();
        assert(e@ =~= Seq::<T>::empty());
        r.push(e);
        i = i + 1;
    }
    r
}

/// Pass two's place in the tempo map is consistent up to tick `tick`.
pub open spec fn time_state_ok(tmap: Seq<TempoEvent>, id: usize, seg: u64, w: u128, cur: u32, tick: u64) -> bool {
    &&& id <= tmap.len()
    &&& cur < 0x1000000
    &&& w <= seg * 0x1000000
    &&& seg <= tick
    &&& id == 0 ==> seg == 0 && w == 0 && cur == DEFAULT_TEMPO
    &&& id > 0 ==> seg == tmap[id - 1].time && cur == tmap[id - 1].tempo && seg < tick
    &&& forall|x: int| (id == 0 || x > seg) ==> #[trigger] tick_weight(tmap, x) == w + integ(tmap, id as int, seg as int, cur as int, x)
}

/// Moves through the tempo events that come before `tick`; gives the new
/// place in the tempo map and the tempo-weighted ticks at `tick`.
pub(crate) fn advance_tempo(tmap: &Vec<TempoEvent>, id0: usize, seg0: u64, w0: u128, cur0: u32, tick0: u64, tick: u64)
    -> (r: (usize, u64, u128, u32, u128))
    requires
        tempo_map_ok(tmap@),
        time_state_ok(tmap@, id0, seg0, w0, cur0, tick0),
        tick0 <= tick,
        tick < 0x1000000000000000,
    ensures
        time_state_ok(tmap@, r.0, r.1, r.2, r.3, tick),
        r.4 == tick_weight(tmap@, tick as int),
{
    let mut id = id0;
    let mut seg = seg0;
    let mut w = w0;
    let mut cur = cur0;
    while id < tmap.len() && tmap[id].time < tick
        invariant
            tempo_map_ok(tmap@),
            time_state_ok(tmap@, id, seg, w, cur, tick),
            tick < 0x1000000000000000,
        decreases tmap@.len() - id,
    {
        let e = tmap[id];
        proof {
            if id > 0 {
                assert(tmap@[id - 1].time <= tmap@[id as int].time);
            }
            assert forall|x: int| x > e.time implies #[trigger] tick_weight(tmap@, x) == (w + (e.time - seg) * cur) + integ(tmap@, id + 1, e.time as int, e.tempo as int, x) by {
                assert(integ(tmap@, id as int, seg as int, cur as int, x) == (e.time - seg) * cur + integ(tmap@, id + 1, e.time as int, e.tempo as int, x));
            }
            assert((e.time - seg) * cur <= (e.time - seg) * 0x1000000) by (nonlinear_arith)
                requires cur < 0x1000000, e.time >= seg;
            assert(w + (e.time - seg) * cur <= e.time * 0x1000000) by (nonlinear_arith)
                requires w <= seg * 0x1000000, (e.time - seg) * cur <= (e.time - seg) * 0x1000000, e.time >= seg;
            assert(e.tempo < 0x1000000);
        }
        w = w + (e.time - seg) as u128 * cur as u128;
        seg = e.time;
        cur = e.tempo;
        id = id + 1;
    }
    proof {
        assert(integ(tmap@, id as int, seg as int, cur as int, tick as int) == (tick - seg) * cur);
        assert((tick - seg) * cur <= (tick - seg) * 0x1000000) by (nonlinear_arith)
            requires cur < 0x1000000, tick >= seg;
        assert(w + (tick - seg) * cur <= tick * 0x1000000) by (nonlinear_arith)
            requires w <= seg * 0x1000000, (tick - seg) * cur <= (tick - seg) * 0x1000000, tick >= seg;
    }
    let at: u128 = w + (tick - seg) as u128 * cur as u128;
    (id, seg, w, cur, at)
}

/// Copies `v[at .. at + len]`.
fn copy_range(v: &Vec<u8>, at: usize, len: usize) -> (r: Vec<u8>)
    requires
        at + len <= v@.len(),
    ensures
        r@ == v@.subrange(at as int, at + len),
{
    let vl: usize = v.len();
    let mut r: Vec<u8> = Vec::with_capacity(len);
    let mut i: usize = 0;
    while i < len
        invariant
            i <= len,
            vl == v@.len(),
            at + len <= v@.len(),
            r@ == v@.subrange(at as int, at + i),
        decreases len - i,
    {
        r.push(v[at + i]);
        i = i + 1;
        assert(r@ =~= v@.subrange(at as int, at + i));
    }
    r
}

impl MIDITrack {
    /// Pass two's output and open notes.
    pub open spec fn p2_view(&self) -> PassTwo {
        PassTwo {
            evs: self.midi_evs@,
            notes: self.notes@.map_values(|v: Vec<Note>| v@),
            stacks: self.unended_notes@.map_values(|v: Vec<(usize, u8)>| v@),
            metas: self.meta_evs@.map_values(|m: MetaEvent| m@),
        }
    }

    /// Pass two's state matches the events consumed so far, under `tmap`.
    pub open spec fn pass_two_ok(&self, tmap: Seq<TempoEvent>) -> bool {
        &&& self.cursor_ok()
        &&& self.ppq > 0
        &&& self.p2_view() == pass_two_fold(
            self.rdr.window@, self.done@, self.done@.len() as int, tmap, self.ppq as nat,
            self.tick_based_parsing, self.track_num,
        )
        &&& stacks_ok(self.p2_view())
        &&& time_state_ok(tmap, self.tempo_id, self.seg_tick, self.weight, self.cur_tempo, self.track_len)
    }

    /// Rewinds the track for pass two.
    pub fn prep_for_pass_two(&mut self)
        requires
            old(self).cursor_ok(),
            old(self).ppq > 0,
        ensures
            forall|tmap: Seq<TempoEvent>| #[trigger] final(self).pass_two_ok(tmap),
            final(self).done@.len() == 0,
            final(self).events() == old(self).events(),
            final(self).rdr.len == old(self).rdr.len,
            final(self).ppq == old(self).ppq,
            final(self).track_num == old(self).track_num,
            final(self).tick_based_parsing == old(self).tick_based_parsing,
            final(self).tempo_evs == old(self).tempo_evs,
            final(self).note_count == old(self).note_count,
            final(self).key_range == old(self).key_range,
            final(self).rdr.window == old(self).rdr.window,
            final(self).rdr.buf_size == old(self).rdr.buf_size,
    {
        self.rdr.pos = self.rdr.start;
        self.prev_cmd = 0;
        self.ended = self.rdr.len == 0;
        self.track_len = 0;
        self.done = Ghost(Seq::empty());
        self.midi_evs = Vec::new();
        self.meta_evs = Vec::new();
        self.notes = empty_lists(256);
        self.unended_notes = empty_lists(4096);
        self.tempo_id = 0;
        self.seg_tick = 0;
        self.weight = 0;
        self.cur_tempo = DEFAULT_TEMPO;
        proof {
            assert(self.p2_view().notes =~= pass_two_init().notes);
            assert(self.p2_view().stacks =~= pass_two_init().stacks);
            assert(self.p2_view().evs =~= pass_two_init().evs);
            assert(self.p2_view().metas =~= pass_two_init().metas);
            if !self.ended {
                assert(Seq::<RawEvent>::empty() + track_from(self.rdr.window@, 0, 0, self.rdr.buf_size as nat)->Ok_0
                    =~= track_from(self.rdr.window@, 0, 0, self.rdr.buf_size as nat)->Ok_0);
            }
        }
    }

    /// Closes the latest open note on (`key`, `ch`), if any.
    fn close_note(&mut self, key: u8, ch: u8, nt: u32) -> (r: Option<u8>)
        requires
            ch < 16,
            stacks_ok(old(self).p2_view()),
            old(self).notes@.len() == 256,
            old(self).unended_notes@.len() == 4096,
        ensures
            (final(self).p2_view(), r) == close_spec(old(self).p2_view(), key, ch, nt),
            stacks_ok(final(self).p2_view()),
            final(self).notes@.len() == 256,
            final(self).unended_notes@.len() == 4096,
            final(self).midi_evs == old(self).midi_evs,
            final(self).meta_evs == old(self).meta_evs,
            final(self).rdr == old(self).rdr,
            final(self).done == old(self).done,
            final(self).ended == old(self).ended,
            final(self).prev_cmd == old(self).prev_cmd,
            final(self).ppq == old(self).ppq,
            final(self).track_num == old(self).track_num,
            final(self).tick_based_parsing == old(self).tick_based_parsing,
            final(self).track_len == old(self).track_len,
            final(self).note_count == old(self).note_count,
            final(self).key_range == old(self).key_range,
            final(self).tempo_evs == old(self).tempo_evs,
            final(self).tempo_id == old(self).tempo_id,
            final(self).seg_tick == old(self).seg_tick,
            final(self).weight == old(self).weight,
            final(self).cur_tempo == old(self).cur_tempo,
    {
        let ghost v0 = self.p2_view();
        let idx: usize = key as usize * 16 + ch as usize;
        assert(v0.stacks[idx as int] == self.unended_notes@[idx as int]@);
        let popped = self.unended_notes[idx].pop();
        match popped {
            None => {
                proof {
                    assert(self.p2_view().stacks =~= v0.stacks);
                }
                None
            },
            Some((id, v)) => {
                assert(id < v0.notes[key as int].len()) by {
                    assert(v0.stacks[idx as int][v0.stacks[idx as int].len() - 1].0 < v0.notes[idx as int / 16].len());
                    assert(idx as int / 16 == key as int);
                }
                let mut n = self.notes[key as usize][id];
                n.end = nt;
                n.velocity = v;
                self.notes[key as usize][id] = n;
                proof {
                    let (c, _) = close_spec(v0, key, ch, nt);
                    assert(self.p2_view().stacks =~= c.stacks);
                    assert(self.p2_view().notes[key as int] =~= c.notes[key as int]);
                    assert(self.p2_view().notes =~= c.notes);
                    assert(self.p2_view().evs =~= c.evs);
                    assert(self.p2_view().metas =~= c.metas);
                }
                Some(v)
            },
        }
    }
}

impl MIDITrack {
    /// Consumes one event for pass two, converting its tick to microseconds
    /// with the global tempo map `t_evs`. On an error the whole track fails
    /// with that error.
    pub fn parse_pass_two(&mut self, t_evs: &Vec<TempoEvent>) -> (r: Result<(), ParseError>)
        requires
            old(self).pass_two_ok(t_evs@),
            tempo_map_ok(t_evs@),
        ensures
            r is Ok ==> final(self).pass_two_ok(t_evs@),
            r is Ok ==> final(self).events() == old(self).events(),
            r is Ok ==> final(self).rdr.len == old(self).rdr.len && final(self).ppq == old(self).ppq,
            r is Ok ==> final(self).track_num == old(self).track_num,
            r is Ok ==> final(self).tick_based_parsing == old(self).tick_based_parsing,
            r is Ok ==> old(self).ended || final(self).rdr.rel() > old(self).rdr.rel(),
            r is Ok ==> same_window(old(self).rdr, final(self).rdr),
            old(self).ended ==> r is Ok && *final(self) == *old(self),
            r matches Err(e) ==> old(self).events() == Err::<Seq<RawEvent>, ParseError>(e),
            !old(self).ended && event_spec(old(self).rdr.window@, old(self).rdr.rel(), old(self).prev_cmd, old(self).rdr.buf_size as nat) is Ok
                ==> r is Ok,
            !old(self).ended ==> (r matches Err(e) ==> event_spec(old(self).rdr.window@, old(self).rdr.rel(), old(self).prev_cmd,
                old(self).rdr.buf_size as nat) == Err::<RawEvent, ParseError>(e)),
            !old(self).ended && r is Ok ==> ({
                let ev = event_spec(old(self).rdr.window@, old(self).rdr.rel(), old(self).prev_cmd, old(self).rdr.buf_size as nat)->Ok_0;
                &&& final(self).done@ == old(self).done@.push(ev)
                &&& final(self).rdr.rel() == ev.next
                &&& final(self).prev_cmd == ev.status
                &&& final(self).ended == (ev.body == EventBody::EndOfTrack)
                &&& final(self).track_len == old(self).track_len + ev.delta
            }),
            !old(self).ended && r is Ok ==> ({
                let ev = event_spec(old(self).rdr.window@, old(self).rdr.rel(), old(self).prev_cmd, old(self).rdr.buf_size as nat)->Ok_0;
                final(self).p2_view() == pass_two_step(old(self).p2_view(), ev, old(self).rdr.window@,
                    micros_at(t_evs@, final(self).track_len as int, old(self).ppq as nat),
                    note_time(t_evs@, final(self).track_len as int, old(self).ppq as nat, old(self).tick_based_parsing),
                    old(self).track_num)
            }),
            final(self).tempo_evs == old(self).tempo_evs,
            final(self).note_count == old(self).note_count,
            final(self).key_range == old(self).key_range,
    {
        if self.ended {
            return Ok(());
        }
        let ghost s = self.rdr.window@;
        let ghost bs = self.rdr.buf_size as nat;
        let ghost i = self.rdr.rel();
        proof {
            assert(s.len() == self.rdr.len);
            lemma_event_progress(s, i, self.prev_cmd, bs);
        }
        let ev = match read_event(&mut self.rdr, self.prev_cmd) {
            Ok(ev) => ev,
            Err(e) => return Err(e),
        };
        let ghost old_done = self.done@;
        let ghost v0 = self.p2_view();
        let ghost tmap = t_evs@;
        proof {
            lemma_ticks_step(old_done, ev);
            assert((self.track_len + ev.delta) as int <= self.rdr.rel() * 0x10000000) by (nonlinear_arith)
                requires
                    self.track_len <= i * 0x10000000,
                    ev.delta <= 0x10000000,
                    i + 1 <= self.rdr.rel();
            assert(self.rdr.rel() * 0x10000000 < 0x1000000000000000) by (nonlinear_arith)
                requires self.rdr.rel() <= u32::MAX;
        }
        let t_new: u64 = self.track_len + ev.delta;
        let (id, seg, w, cur, at) = advance_tempo(t_evs, self.tempo_id, self.seg_tick, self.weight, self.cur_tempo, self.track_len, t_new);
        self.tempo_id = id;
        self.seg_tick = seg;
        self.weight = w;
        self.cur_tempo = cur;
        let micros: u128 = at / self.ppq as u128;
        let tm: u64 = if micros > u64::MAX as u128 { u64::MAX } else { micros as u64 };
        let nt: u32 = if self.tick_based_parsing {
            if t_new > u32::MAX as u64 { u32::MAX } else { t_new as u32 }
        } else {
            if tm > u32::MAX as u64 { u32::MAX } else { tm as u32 }
        };
        self.track_len = t_new;
        self.prev_cmd = ev.status;
        self.done = Ghost(old_done.push(ev));
        let ch: u8 = ev.status % 16;
        match ev.body {
            EventBody::NoteOff { key, vel } => {
                let m = self.close_note(key, ch, nt);
                let v = match m {
                    Some(v) => v,
                    None => vel,
                };
                self.midi_evs.push(MIDIEvent { time: tm, command: MIDIEventType::NoteOff, data: [ch, key, v] });
            },
            EventBody::NoteOn { key, vel } => {
                if vel == 0 {
                    let _ = self.close_note(key, ch, nt);
                    self.midi_evs.push(MIDIEvent { time: tm, command: MIDIEventType::NoteOff, data: [ch, key, 0u8] });
                } else {
                    let idx: usize = key as usize * 16 + ch as usize;
                    let nid: usize = self.notes[key as usize].len();
                    self.notes[key as usize].push(Note { start: nt, end: NOTE_END_UNMATCHED, channel: ch, track: self.track_num, velocity: vel });
                    self.unended_notes[idx].push((nid, vel));
                    self.midi_evs.push(MIDIEvent { time: tm, command: MIDIEventType::NoteOn, data: [ch, key, vel] });
                    proof {
                        let v1 = self.p2_view();
                        assert(v1.notes.len() == 256);
                        assert(v1.stacks.len() == 4096);
                        assert forall|a: int, b: int| 0 <= a < 4096 && 0 <= b < v1.stacks[a].len() implies
                            (#[trigger] v1.stacks[a][b]).0 < v1.notes[a / 16].len() by {
                            if a == idx as int {
                                if b < v0.stacks[a].len() {
                                    assert(v1.stacks[a][b] == v0.stacks[a][b]);
                                }
                            } else {
                                assert(v1.stacks[a] == v0.stacks[a]);
                            }
                        }
                    }
                }
            },
            EventBody::Control { num, val } => {
                self.midi_evs.push(MIDIEvent { time: tm, command: MIDIEventType::ControlEvent, data: [ch, num, val] });
            },
            EventBody::PitchBend { lsb, msb } => {
                self.midi_evs.push(MIDIEvent { time: tm, command: MIDIEventType::PitchBend, data: [ch, lsb, msb] });
            },
            EventBody::Marker { at, len } => {
                let data = copy_range(&self.rdr.window, at, len);
                self.meta_evs.push(MetaEvent { time: tm, meta_name: MetaEventName::Marker, data });
            },
            EventBody::EndOfTrack => {
                self.ended = true;
            },
            _ => {},
        }
        proof {
            let n = old_done.len() as int;
            let done = old_done.push(ev);
            lemma_fold_prefix(s, old_done, ev, n, tmap, self.ppq as nat, self.tick_based_parsing, self.track_num);
            assert(done[n] == ev);
            assert(ticks_upto(done, n + 1) == t_new);
            assert(micros_at(tmap, t_new as int, self.ppq as nat) == tm);
            assert(note_time(tmap, t_new as int, self.ppq as nat, self.tick_based_parsing) == nt);
            let target = pass_two_step(v0, ev, s, tm, nt, self.track_num);
            assert(pass_two_fold(s, done, n + 1, tmap, self.ppq as nat, self.tick_based_parsing, self.track_num) == target);
            let v1 = self.p2_view();
            assert(v1.evs =~= target.evs);
            assert(v1.notes =~= target.notes);
            assert(v1.stacks =~= target.stacks);
            assert(v1.metas =~= target.metas);
            let rest = track_from(s, ev.next as int, ev.status, bs);
            if ev.body == EventBody::EndOfTrack {
                assert(old_done + seq![ev] =~= old_done.push(ev));
            } else {
                if let Ok(rs) = rest {
                    assert(old_done + (seq![ev] + rs) =~= old_done.push(ev) + rs);
                }
            }
        }
        Ok(())
    }
}

/// The largest single read a track reader accepts.
pub const TRACK_BUFFER_SIZE: usize = 100000;

} // verus!

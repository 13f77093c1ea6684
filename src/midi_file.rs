use vstd::prelude::*;

use crate::byte_reader::{be_u16, be_u32, read_u16, read_u32, ParseError};
use crate::iter_ext::{all_sorted, flatten_ms, merge_all_spec, merge_midi_events, merge_notes, merge_tempo_evs, sorted_by_key, views, MergeOrder};
use crate::track_laws::{evs_facts, fold_facts, lemma_fold_facts};
use crate::midi_track_parser::{
    advance_tempo, key_range_of, micros_at, note_count_of, pass_two_fold, time_state_ok, DEFAULT_TEMPO, tempo_map_of, tempo_map_ok, track_events, MIDIEvent,
    MIDITrack, Note, PassTwo, RawEvent, TempoEvent, TRACK_BUFFER_SIZE,
};

verus! {

/// Where a track's bytes stand in the file.
#[derive(PartialEq, Eq, Structural, Clone, Copy, Debug)]
pub struct TrackPointer {
    pub start: u64,
    pub len: u32,
}

/// The header chunk: `MThd`, length 6, then format, track count and ticks per
/// quarter note. Gives (track count, ticks per quarter note). Only formats 0
/// and 1 are accepted, and the ticks per quarter note must not be zero.
pub open spec fn header_spec(b: Seq<u8>) -> Result<(u16, u16), ParseError> {
    if b.len() < 14 {
        Err(ParseError::Malformed(0))
    } else if be_u32(b[0], b[1], b[2], b[3]) != 0x4D546864 {
        Err(ParseError::Malformed(0))
    } else if be_u32(b[4], b[5], b[6], b[7]) != 6 {
        Err(ParseError::Malformed(0))
    } else if be_u16(b[8], b[9]) >= 2 {
        Err(ParseError::Malformed(0))
    } else if be_u16(b[12], b[13]) == 0 {
        Err(ParseError::Malformed(0))
    } else {
        Ok((be_u16(b[10], b[11]), be_u16(b[12], b[13])))
    }
}

/// The `n` track chunks from `pos` on: each `MTrk`, a 32-bit length, and
/// that many bytes, all inside the file.
pub open spec fn locs_spec(b: Seq<u8>, pos: int, n: nat) -> Result<Seq<TrackPointer>, ParseError>
    decreases n,
{
    if n == 0 {
        Ok(Seq::empty())
    } else if pos < 0 || pos + 8 > b.len() {
        Err(ParseError::Malformed(pos as u64))
    } else if be_u32(b[pos], b[pos + 1], b[pos + 2], b[pos + 3]) != 0x4D54726B {
        Err(ParseError::Malformed(pos as u64))
    } else {
        let len = be_u32(b[pos + 4], b[pos + 5], b[pos + 6], b[pos + 7]);
        let start = pos + 8;
        if start + len > b.len() {
            Err(ParseError::Malformed(pos as u64))
        } else {
            match locs_spec(b, start + len, (n - 1) as nat) {
                Ok(rest) => Ok(seq![TrackPointer { start: start as u64, len }] + rest),
                Err(e) => Err(e),
            }
        }
    }
}

/// A track's error as the file reports it: a malformed track names the
/// offset of its chunk.
pub open spec fn in_chunk(e: ParseError, chunk: int) -> ParseError {
    match e {
        ParseError::Malformed(_) => ParseError::Malformed(chunk as u64),
        _ => e,
    }
}

pub open spec fn window_of(b: Seq<u8>, loc: TrackPointer) -> Seq<u8> {
    b.subrange(loc.start as int, loc.start + loc.len)
}

/// The decoded events of the tracks from `i` on; the first failing track decides the error.
pub open spec fn tracks_spec(b: Seq<u8>, locs: Seq<TrackPointer>, i: int) -> Result<Seq<Seq<RawEvent>>, ParseError>
    decreases locs.len() - i,
{
    if i < 0 || i >= locs.len() {
        Ok(Seq::empty())
    } else {
        match track_events(window_of(b, locs[i]), TRACK_BUFFER_SIZE as nat) {
            Err(e) => Err(in_chunk(e, locs[i].start - 8)),
            Ok(evs) => match tracks_spec(b, locs, i + 1) {
                Ok(rest) => Ok(seq![evs] + rest),
                Err(e) => Err(e),
            },
        }
    }
}

/// A whole file: ticks per quarter note, where its tracks stand, and their events.
pub open spec fn file_spec(b: Seq<u8>) -> Result<(u16, Seq<TrackPointer>, Seq<Seq<RawEvent>>), ParseError> {
    match header_spec(b) {
        Err(e) => Err(e),
        Ok((cnt, ppq)) => match locs_spec(b, 14, cnt as nat) {
            Err(e) => Err(e),
            Ok(locs) => match tracks_spec(b, locs, 0) {
                Err(e) => Err(e),
                Ok(tevs) => Ok((ppq, locs, tevs)),
            },
        },
    }
}

/// The lowest and highest note-on key over the tracks' first `n` entries.
pub open spec fn file_key_range(tevs: Seq<Seq<RawEvent>>, n: int) -> (u8, u8)
    decreases n,
{
    if n <= 0 {
        (255u8, 0u8)
    } else {
        let (lo, hi) = file_key_range(tevs, n - 1);
        let (l, h) = key_range_of(tevs[n - 1], tevs[n - 1].len() as int);
        (if l < lo { l } else { lo }, if h > hi { h } else { hi })
    }
}

/// The tempo maps of the tracks.
pub open spec fn tempo_maps(tevs: Seq<Seq<RawEvent>>) -> Seq<Seq<TempoEvent>> {
    Seq::new(tevs.len(), |i: int| tempo_map_of(tevs[i], tevs[i].len() as int))
}

/// A parsed file, its tracks rewound for pass two.
pub struct MIDIFile {
    pub ppq: u16,
    pub trk_count: u16,
    pub track_locations: Vec<TrackPointer>,
    pub tracks: Vec<MIDITrack>,
    pub note_counts: Vec<u64>,
    pub key_range: (u8, u8),
    pub tick_based_parsing: bool,
    pub tempo_evs: Vec<TempoEvent>,
}

/// Reads the header chunk.
fn parse_header(bytes: &[u8]) -> (r: Result<(u16, u16), ParseError>)
    ensures
        r == header_spec(bytes@),
{
    let mthd = match read_u32(bytes, 0) {
        Some(v) => v,
        None => return Err(ParseError::Malformed(0)),
    };
    if bytes.len() < 14 {
        return Err(ParseError::Malformed(0));
    }
    let h_len = match read_u32(bytes, 4) {
        Some(v) => v,
        None => return Err(ParseError::Malformed(0)),
    };
    let fmt = match read_u16(bytes, 8) {
        Some(v) => v,
        None => return Err(ParseError::Malformed(0)),
    };
    let trk_count = match read_u16(bytes, 10) {
        Some(v) => v,
        None => return Err(ParseError::Malformed(0)),
    };
    let ppq = match read_u16(bytes, 12) {
        Some(v) => v,
        None => return Err(ParseError::Malformed(0)),
    };
    if mthd != 0x4D546864 || h_len != 6 || fmt >= 2 || ppq == 0 {
        return Err(ParseError::Malformed(0));
    }
    Ok((trk_count, ppq))
}

pub open spec fn prepend_locs(done: Seq<TrackPointer>, r: Result<Seq<TrackPointer>, ParseError>) -> Result<Seq<TrackPointer>, ParseError> {
    match r {
        Ok(rest) => Ok(done + rest),
        Err(e) => Err(e),
    }
}

/// Walks the `count` track chunks that follow the header.
fn populate_track_locations(bytes: &[u8], count: u16) -> (r: Result<Vec<TrackPointer>, ParseError>)
    ensures
        match locs_spec(bytes@, 14, count as nat) {
            Ok(locs) => r matches Ok(v) && v@ == locs,
            Err(e) => r == Err::<Vec<TrackPointer>, ParseError>(e),
        },
{
    let blen = bytes.len();
    let mut locs: Vec<TrackPointer> = Vec::new();
    let mut pos: usize = 14;
    let mut i: u16 = 0;
    proof {
        if let Ok(l) = locs_spec(bytes@, 14, count as nat) {
            assert(locs@ + l =~= l);
        }
    }
    while i < count
        invariant
            blen == bytes@.len(),
            i <= count,
            locs_spec(bytes@, 14, count as nat) == prepend_locs(locs@, locs_spec(bytes@, pos as int, (count - i) as nat)),
        decreases count - i,
    {
        if pos > blen || blen - pos < 8 {
            return Err(ParseError::Malformed(pos as u64));
        }
        let mtrk = match read_u32(bytes, pos) {
            Some(v) => v,
            None => return Err(ParseError::Malformed(pos as u64)),
        };
        let len = match read_u32(bytes, pos + 4) {
            Some(v) => v,
            None => return Err(ParseError::Malformed(pos as u64)),
        };
        if mtrk != 0x4D54726B {
            return Err(ParseError::Malformed(pos as u64));
        }
        let start = pos + 8;
        if len as usize > blen - start {
            return Err(ParseError::Malformed(pos as u64));
        }
        let ghost old_locs = locs@;
        let loc = TrackPointer { start: start as u64, len };
        locs.push(loc);
        pos = start + len as usize;
        i = i + 1;
        proof {
            if let Ok(rest) = locs_spec(bytes@, pos as int, (count - i) as nat) {
                assert(old_locs + (seq![loc] + rest) =~= locs@ + rest);
            }
        }
    }
    proof {
        assert(locs@ + Seq::<TrackPointer>::empty() =~= locs@);
    }
    Ok(locs)
}

proof fn lemma_locs_in_bounds(b: Seq<u8>, pos: int, n: nat)
    requires
        b.len() <= u64::MAX,
    ensures
        locs_spec(b, pos, n) matches Ok(locs) ==> forall|j: int| 0 <= j < locs.len() ==>
            (#[trigger] locs[j]).start + locs[j].len <= b.len(),
        locs_spec(b, pos, n) matches Ok(locs) ==> locs.len() == n,
        locs_spec(b, pos, n) matches Ok(locs) ==> forall|j: int| 0 <= j < locs.len() ==> (#[trigger] locs[j]).start >= 8,
    decreases n,
{
    if n > 0 && 0 <= pos && pos + 8 <= b.len() {
        let len = be_u32(b[pos + 4], b[pos + 5], b[pos + 6], b[pos + 7]);
        lemma_locs_in_bounds(b, pos + 8 + len, (n - 1) as nat);
        if let Ok(locs) = locs_spec(b, pos, n) {
            let rest = locs_spec(b, pos + 8 + len, (n - 1) as nat)->Ok_0;
            assert forall|j: int| 0 <= j < locs.len() implies (#[trigger] locs[j]).start + locs[j].len <= b.len()
                && locs[j].start >= 8 by {
                if j > 0 {
                    assert(locs[j] == rest[j - 1]);
                    assert(rest[j - 1].start >= 8);
                } else {
                    assert(locs[0] == TrackPointer { start: (pos + 8) as u64, len });
                }
            }
        }
    }
}

/// A track that pass one has read and rewound for pass two.
#[verifier::opaque]
pub open spec fn track_ready(t: MIDITrack, b: Seq<u8>, loc: TrackPointer, j: int, ppq: u16, tb: bool, evs: Seq<RawEvent>) -> bool {
    &&& t.rdr.window@ == window_of(b, loc)
    &&& t.rdr.buf_size == TRACK_BUFFER_SIZE
    &&& t.events() == Ok::<Seq<RawEvent>, ParseError>(evs)
    &&& t.ppq == ppq
    &&& t.track_num == j
    &&& t.tick_based_parsing == tb
    &&& t.done@.len() == 0
    &&& forall|tm: Seq<TempoEvent>| #[trigger] t.pass_two_ok(tm)
}

pub open spec fn prepend_tevs(done: Seq<Seq<RawEvent>>, r: Result<Seq<Seq<RawEvent>>, ParseError>) -> Result<Seq<Seq<RawEvent>>, ParseError> {
    match r {
        Ok(rest) => Ok(done + rest),
        Err(e) => Err(e),
    }
}

impl MIDIFile {
    /// Track `i` is what pass one left of the file's track `i`, with events `evs`.
    pub open spec fn track_ok(&self, b: Seq<u8>, locs: Seq<TrackPointer>, i: int, evs: Seq<RawEvent>) -> bool {
        let t = self.tracks@[i];
        &&& t.rdr.window@ == window_of(b, locs[i])
        &&& t.rdr.buf_size == TRACK_BUFFER_SIZE
        &&& t.events() == Ok::<Seq<RawEvent>, ParseError>(evs)
        &&& t.ppq == self.ppq
        &&& t.track_num == i
        &&& t.tick_based_parsing == self.tick_based_parsing
        &&& t.done@.len() == 0
        &&& t.pass_two_ok(self.tempo_evs@)
        &&& self.note_counts@[i] == note_count_of(evs, evs.len() as int)
    }

    /// The file was parsed from `b`, with ticks per quarter note `ppq`, tracks
    /// at `locs`, holding the events `tevs`; every track is ready for pass two.
    pub open spec fn parsed_from(&self, b: Seq<u8>, ppq: u16, locs: Seq<TrackPointer>, tevs: Seq<Seq<RawEvent>>) -> bool {
        &&& self.ppq == ppq
        &&& self.trk_count == locs.len()
        &&& self.track_locations@ == locs
        &&& tevs.len() == locs.len()
        &&& self.tracks@.len() == locs.len()
        &&& self.note_counts@.len() == locs.len()
        &&& forall|i: int| 0 <= i < locs.len() ==> #[trigger] self.track_ok(b, locs, i, tevs[i])
        &&& tempo_map_ok(self.tempo_evs@)
        &&& self.tempo_evs@.to_multiset() == flatten_ms(tempo_maps(tevs))
        &&& self.key_range == file_key_range(tevs, tevs.len() as int)
    }

    /// Parses the header and the track chunks, runs pass one on every track,
    /// and merges their tempo maps.
    #[verifier::rlimit(100)]
    pub fn new(bytes: &[u8], tick_based_parsing: bool) -> (r: Result<Self, ParseError>)
        ensures
            match file_spec(bytes@) {
                Err(e) => r == Err::<Self, ParseError>(e),
                Ok((ppq, locs, tevs)) => r matches Ok(f) && f.parsed_from(bytes@, ppq, locs, tevs)
                    && f.tick_based_parsing == tick_based_parsing && f.ready(),
            },
    {
        let (cnt, ppq) = match parse_header(bytes) {
            Ok(h) => h,
            Err(e) => return Err(e),
        };
        let locs = match populate_track_locations(bytes, cnt) {
            Ok(l) => l,
            Err(e) => return Err(e),
        };
        let blen = bytes.len();
        proof {
            assert(blen <= u64::MAX);
            lemma_locs_in_bounds(bytes@, 14, cnt as nat);
        }
        let ghost b = bytes@;
        let mut tracks: Vec<MIDITrack> = Vec::new();
        let mut note_counts: Vec<u64> = Vec::new();
        let mut tempo_seqs: Vec<Vec<TempoEvent>> = Vec::new();
        let mut key_range: (u8, u8) = (255, 0);
        let ghost mut done: Seq<Seq<RawEvent>> = Seq::empty();
        let n = locs.len();
        proof {
            if let Ok(all) = tracks_spec(b, locs@, 0) {
                assert(done + all =~= all);
            }
        }
        let mut i: usize = 0;
        while i < n
            invariant
                b == bytes@,
                n == locs@.len(),
                locs_spec(b, 14, cnt as nat) == Ok::<Seq<TrackPointer>, ParseError>(locs@),
                forall|j: int| 0 <= j < locs@.len() ==> (#[trigger] locs@[j]).start + locs@[j].len <= b.len(),
                forall|j: int| 0 <= j < locs@.len() ==> (#[trigger] locs@[j]).start >= 8,
                header_spec(b) == Ok::<(u16, u16), ParseError>((cnt, ppq)),
                ppq > 0,
                i <= n,
                done.len() == i,
                tracks@.len() == i,
                note_counts@.len() == i,
                tracks_spec(b, locs@, 0) == prepend_tevs(done, tracks_spec(b, locs@, i as int)),
                forall|j: int| 0 <= j < i ==> track_ready(#[trigger] tracks@[j], b, locs@[j], j, ppq, tick_based_parsing, done[j]),
                forall|j: int| 0 <= j < i ==> #[trigger] note_counts@[j] == note_count_of(done[j], done[j].len() as int),
                tempo_seqs@.len() == i,
                forall|j: int| 0 <= j < i ==> (#[trigger] tempo_seqs@[j])@ == tempo_map_of(done[j], done[j].len() as int),
                forall|j: int| 0 <= j < i ==> tempo_map_ok((#[trigger] tempo_seqs@[j])@),
                key_range == file_key_range(done, i as int),
            decreases n - i,
        {
            let ghost tr0 = tracks@;
            let ghost nc0 = note_counts@;
            let (t, tev) = match parse_track(bytes, &locs[i], i, ppq, tick_based_parsing) {
                Ok(p) => p,
                Err(e0) => {
                    let e = match e0 {
                        ParseError::Malformed(_) => ParseError::Malformed(locs[i].start - 8),
                        other => other,
                    };
                    proof {
                        assert(tracks_spec(b, locs@, i as int) == Err::<Seq<Seq<RawEvent>>, ParseError>(e));
                    }
                    return Err(e);
                },
            };
            let ghost evs = track_events(window_of(b, locs@[i as int]), TRACK_BUFFER_SIZE as nat)->Ok_0;
            let ghost ts0 = tempo_seqs@;
            tempo_seqs.push(tev);
            note_counts.push(t.note_count);
            let ghost kr0 = key_range;
            let (lo, hi) = t.key_range;
            if lo < key_range.0 {
                key_range.0 = lo;
            }
            if hi > key_range.1 {
                key_range.1 = hi;
            }
            tracks.push(t);
            proof {
                let old_done = done;
                done = done.push(evs);
                assert(done[i as int] == evs);
                lemma_key_range_prefix(old_done, evs, i as int);
                assert(file_key_range(done, i + 1) == ({
                    let (lo0, hi0) = file_key_range(done, i as int);
                    let (l, h) = key_range_of(evs, evs.len() as int);
                    (if l < lo0 { l } else { lo0 }, if h > hi0 { h } else { hi0 })
                })) by {
                    assert(file_key_range(done, i as int) == file_key_range(old_done, i as int)) by {
                        lemma_key_range_prefix(old_done, evs, i as int);
                    }
                }
                assert(kr0 == file_key_range(done, i as int));
                assert((lo, hi) == key_range_of(evs, evs.len() as int));
                assert(key_range == file_key_range(done, i + 1));
                if let Ok(rest) = tracks_spec(b, locs@, i + 1) {
                    assert(old_done + (seq![evs] + rest) =~= done + rest);
                }
                assert forall|j: int| 0 <= j < i + 1 implies track_ready(#[trigger] tracks@[j], b, locs@[j], j, ppq, tick_based_parsing, done[j]) by {
                    if j < i {
                        assert(tracks@[j] == tr0[j]);
                        assert(done[j] == old_done[j]);
                    }
                }
                assert forall|j: int| 0 <= j < i + 1 implies #[trigger] note_counts@[j] == note_count_of(done[j], done[j].len() as int) by {
                    if j < i {
                        assert(note_counts@[j] == nc0[j]);
                        assert(done[j] == old_done[j]);
                    }
                }
                assert forall|j: int| 0 <= j < i + 1 implies (#[trigger] tempo_seqs@[j])@ == tempo_map_of(done[j], done[j].len() as int)
                    && tempo_map_ok(tempo_seqs@[j]@) by {
                    if j < i {
                        assert(tempo_seqs@[j] == ts0[j]);
                        assert(done[j] == old_done[j]);
                    }
                }
            }
            i = i + 1;
        }
        proof {
            assert(prepend_tevs(done, tracks_spec(b, locs@, n as int)) == Ok::<Seq<Seq<RawEvent>>, ParseError>(done + Seq::empty()));
            assert(done + Seq::<Seq<RawEvent>>::empty() =~= done);
        }
        let ghost maps = views(tempo_seqs@);
        let ghost ts = tempo_seqs@;
        proof {
            assert(maps =~= tempo_maps(done));
        }
        let tempo_evs = merge_tempo_evs(tempo_seqs);
        proof {
            assert(all_sorted(maps)) by {
                assert forall|j: int| 0 <= j < maps.len() implies sorted_by_key(#[trigger] maps[j]) by {
                    assert(tempo_map_ok(ts[j]@));
                }
            }
            assert forall|a: int| 0 <= a < tempo_evs@.len() implies tempo_evs@[a].tempo < 0x1000000
                && tempo_evs@[a].time < 0x1000000000000000 by {
                let x = tempo_evs@[a];
                assert(tempo_evs@.to_multiset().count(x) > 0) by {
                    broadcast use vstd::seq_lib::group_to_multiset_ensures;
                    assert(tempo_evs@.contains(x));
                }
                crate::iter_ext::lemma_flatten_member(maps, x);
                let (p, q) = choose|p: int, q: int| 0 <= p < maps.len() && 0 <= q < maps[p].len() && maps[p][q] == x;
                assert(tempo_map_ok(ts[p]@));
            }
        }
        let f = MIDIFile {
            ppq,
            trk_count: cnt,
            track_locations: locs,
            tracks,
            note_counts,
            key_range,
            tick_based_parsing,
            tempo_evs,
        };
        proof {
            reveal(track_ready);
            assert forall|j: int| 0 <= j < n implies #[trigger] f.track_ok(b, f.track_locations@, j, done[j]) by {
                assert(track_ready(f.tracks@[j], b, locs@[j], j, ppq, tick_based_parsing, done[j]));
                assert(f.tracks@[j].pass_two_ok(f.tempo_evs@));
            }
            assert forall|j: int| 0 <= j < f.tracks@.len() implies ready_for_pass_two(#[trigger] f.tracks@[j], f.tempo_evs@) by {
                assert(track_ready(f.tracks@[j], b, locs@[j], j, ppq, tick_based_parsing, done[j]));
            }
            assert(tracks_spec(b, locs@, 0) == Ok::<Seq<Seq<RawEvent>>, ParseError>(done));
            assert(file_spec(b) == Ok::<(u16, Seq<TrackPointer>, Seq<Seq<RawEvent>>), ParseError>((ppq, locs@, done)));
            assert(tempo_map_ok(f.tempo_evs@));
            assert(f.tempo_evs@.to_multiset() == flatten_ms(tempo_maps(done)));
            assert(f.key_range == file_key_range(done, done.len() as int));
        }
        Ok(f)
    }
}

/// Runs pass one over the track at `loc` and rewinds it for pass two.
fn parse_track(bytes: &[u8], loc: &TrackPointer, i: usize, ppq: u16, tick_based_parsing: bool) -> (r: Result<(MIDITrack, Vec<TempoEvent>), ParseError>)
    requires
        ppq > 0,
        loc.start + loc.len <= bytes@.len(),
    ensures
        match track_events(window_of(bytes@, *loc), TRACK_BUFFER_SIZE as nat) {
            Err(e) => r == Err::<(MIDITrack, Vec<TempoEvent>), ParseError>(e),
            Ok(evs) => r matches Ok((t, tev)) && {
                &&& track_ready(t, bytes@, *loc, i as int, ppq, tick_based_parsing, evs)
                &&& t.note_count == note_count_of(evs, evs.len() as int)
                &&& t.key_range == key_range_of(evs, evs.len() as int)
                &&& tev@ == tempo_map_of(evs, evs.len() as int)
                &&& tempo_map_ok(tev@)
            },
        },
{
    let mut t = match MIDITrack::new(i, ppq, bytes, loc, tick_based_parsing) {
        Ok(t) => t,
        Err(e) => return Err(e),
    };
    assert(t.events() == track_events(window_of(bytes@, *loc), TRACK_BUFFER_SIZE as nat));
    while !t.ended
        invariant
            t.pass_one_ok(),
            t.rdr.window@ == window_of(bytes@, *loc),
            t.rdr.buf_size == TRACK_BUFFER_SIZE,
            t.ppq == ppq,
            t.track_num == i,
            t.tick_based_parsing == tick_based_parsing,
        decreases t.rdr.len - t.rdr.rel() + (if t.ended { 0int } else { 1int }),
    {
        match t.parse_ev() {
            Ok(()) => {},
            Err(e) => return Err(e),
        }
    }
    assert(t.events() == Ok::<Seq<RawEvent>, ParseError>(t.done@));
    let mut tev: Vec<TempoEvent> = Vec::new();
    std::mem::swap(&mut t.tempo_evs, &mut tev);
    t.prep_for_pass_two();
    proof {
        reveal(track_ready);
    }
    Ok((t, tev))
}

/// The tempo map with each event's time in microseconds filled in.
fn normalize_tempo_map(tmap: &Vec<TempoEvent>, ppq: u16) -> (r: Vec<TempoEvent>)
    requires
        tempo_map_ok(tmap@),
        ppq > 0,
    ensures
        r@.len() == tmap@.len(),
        forall|i: int| 0 <= i < tmap@.len() ==> #[trigger] r@[i] == (TempoEvent {
            time_norm: micros_at(tmap@, tmap@[i].time as int, ppq as nat),
            ..tmap@[i]
        }),
{
    let n = tmap.len();
    let mut out: Vec<TempoEvent> = Vec::new();
    let mut id: usize = 0;
    let mut seg: u64 = 0;
    let mut w: u128 = 0;
    let mut cur: u32 = DEFAULT_TEMPO;
    let mut tick: u64 = 0;
    let mut i: usize = 0;
    while i < n
        invariant
            n == tmap@.len(),
            tempo_map_ok(tmap@),
            ppq > 0,
            i <= n,
            time_state_ok(tmap@, id, seg, w, cur, tick),
            i > 0 ==> tick == tmap@[i - 1].time,
            i == 0 ==> tick == 0,
            out@.len() == i,
            forall|j: int| 0 <= j < i ==> #[trigger] out@[j] == (TempoEvent {
                time_norm: micros_at(tmap@, tmap@[j].time as int, ppq as nat),
                ..tmap@[j]
            }),
        decreases n - i,
    {
        let e = tmap[i];
        proof {
            if i > 0 {
                assert(tmap@[i - 1].time <= tmap@[i as int].time);
            }
        }
        let (id2, seg2, w2, cur2, at) = advance_tempo(tmap, id, seg, w, cur, tick, e.time);
        id = id2;
        seg = seg2;
        w = w2;
        cur = cur2;
        tick = e.time;
        let micros: u128 = at / ppq as u128;
        let tm: u64 = if micros > u64::MAX as u128 { u64::MAX } else { micros as u64 };
        let ghost o = out@;
        out.push(TempoEvent { time: e.time, time_norm: tm, tempo: e.tempo });
        proof {
            assert forall|j: int| 0 <= j < i + 1 implies #[trigger] out@[j] == (TempoEvent {
                time_norm: micros_at(tmap@, tmap@[j].time as int, ppq as nat),
                ..tmap@[j]
            }) by {
                if j < i {
                    assert(out@[j] == o[j]);
                }
            }
        }
        i = i + 1;
    }
    out
}

/// What pass two yields on track `t` once all its events are consumed.
pub open spec fn pass_two_result(t: MIDITrack, tmap: Seq<TempoEvent>) -> PassTwo {
    let evs = t.events()->Ok_0;
    pass_two_fold(t.rdr.window@, evs, evs.len() as int, tmap, t.ppq as nat, t.tick_based_parsing, t.track_num)
}

/// Track `t` is rewound and ready for pass two under `tmap`.
pub open spec fn ready_for_pass_two(t: MIDITrack, tmap: Seq<TempoEvent>) -> bool {
    &&& t.events() is Ok
    &&& t.done@.len() == 0
    &&& t.pass_two_ok(tmap)
}

/// Runs pass two over a whole track; gives its events and its notes per key.
fn finish_track(t: MIDITrack, tmap: &Vec<TempoEvent>) -> (r: (Vec<MIDIEvent>, Vec<Vec<Note>>))
    requires
        ready_for_pass_two(t, tmap@),
        tempo_map_ok(tmap@),
    ensures
        r.0@ == pass_two_result(t, tmap@).evs,
        r.1@.len() == 256,
        forall|k: int| 0 <= k < 256 ==> (#[trigger] r.1@[k])@ == pass_two_result(t, tmap@).notes[k],
        fold_facts(pass_two_result(t, tmap@), t.events()->Ok_0, (t.events()->Ok_0).len() as int, tmap@,
            t.ppq as nat, t.tick_based_parsing, t.track_num),
{
    let ghost t0 = t;
    let ghost evs = t.events()->Ok_0;
    let mut t = t;
    while !t.ended
        invariant
            t.pass_two_ok(tmap@),
            tempo_map_ok(tmap@),
            t.events() == t0.events(),
            t.events() is Ok,
            t.rdr.window == t0.rdr.window,
            t.ppq == t0.ppq,
            t.track_num == t0.track_num,
            t.tick_based_parsing == t0.tick_based_parsing,
            t.rdr.len == t0.rdr.len,
        decreases t.rdr.len - t.rdr.rel() + (if t.ended { 0int } else { 1int }),
    {
        match t.parse_pass_two(tmap) {
            Ok(()) => {},
            Err(e) => {
                proof {
                    assert(false);
                }
            },
        }
    }
    proof {
        assert(t.done@ == evs);
        assert(evs.len() <= t.rdr.len);
        lemma_fold_facts(t.rdr.window@, evs, evs.len() as int, tmap@, t.ppq as nat, t.tick_based_parsing, t.track_num);
        assert forall|k: int| 0 <= k < 256 implies (#[trigger] t.notes@[k])@ == pass_two_result(t0, tmap@).notes[k] by {
            assert(t.p2_view().notes[k] == t.notes@[k]@);
        }
    }
    (t.midi_evs, t.notes)
}

proof fn lemma_notes_sorted(nts: Seq<Note>, track: usize)
    requires
        forall|i: int, j: int| 0 <= i <= j < nts.len() ==> nts[i].start <= nts[j].start,
        forall|i: int| 0 <= i < nts.len() ==> (#[trigger] nts[i]).track == track,
    ensures
        sorted_by_key(nts),
{
    assert forall|i: int, j: int| 0 <= i <= j < nts.len() implies nts[i].order_key() <= nts[j].order_key() by {
        assert(nts[i].start <= nts[j].start);
        assert(nts[i].track == nts[j].track);
        assert(nts[i].start as int * 0x1_0000_0000_0000_0000 <= nts[j].start as int * 0x1_0000_0000_0000_0000) by (nonlinear_arith)
            requires nts[i].start <= nts[j].start;
    }
}

impl MIDIFile {
    /// Every track is ready for pass two under the file's tempo map.
    pub open spec fn ready(&self) -> bool {
        &&& self.ppq > 0
        &&& tempo_map_ok(self.tempo_evs@)
        &&& forall|i: int| 0 <= i < self.tracks@.len() ==> ready_for_pass_two(#[trigger] self.tracks@[i], self.tempo_evs@)
    }

    /// What pass two yields on each track.
    pub open spec fn outputs(&self) -> Seq<PassTwo> {
        Seq::new(self.tracks@.len(), |i: int| pass_two_result(self.tracks@[i], self.tempo_evs@))
    }

    /// Runs pass two on every track, then merges: the events of all tracks
    /// into one stream sorted by time, and for each of the 256 keys the notes
    /// of all tracks into one vector sorted by start, then track. The merged
    /// tempo map is handed out as it stands.
    pub fn get_sequences(self, midi_evs: &mut Vec<MIDIEvent>, notes_out: &mut Vec<Vec<Note>>, tempo_evs: &mut Vec<TempoEvent>)
        requires
            self.ready(),
        ensures
            final(tempo_evs)@.len() == self.tempo_evs@.len(),
            forall|i: int| 0 <= i < self.tempo_evs@.len() ==> #[trigger] final(tempo_evs)@[i] == (TempoEvent {
                time_norm: micros_at(self.tempo_evs@, self.tempo_evs@[i].time as int, self.ppq as nat),
                ..self.tempo_evs@[i]
            }),
            final(midi_evs)@ == merge_all_spec(Seq::new(self.tracks@.len(), |i: int| self.outputs()[i].evs)),
            sorted_by_key(final(midi_evs)@),
            final(midi_evs)@.to_multiset() == flatten_ms(Seq::new(self.tracks@.len(), |i: int| self.outputs()[i].evs)),
            final(notes_out)@.len() == 256,
            forall|k: int| 0 <= k < 256 ==> (#[trigger] final(notes_out)@[k])@
                == merge_all_spec(Seq::new(self.tracks@.len(), |i: int| self.outputs()[i].notes[k])),
            forall|k: int| 0 <= k < 256 ==> sorted_by_key((#[trigger] final(notes_out)@[k])@),
            forall|k: int| 0 <= k < 256 ==> (#[trigger] final(notes_out)@[k])@.to_multiset()
                == flatten_ms(Seq::new(self.tracks@.len(), |i: int| self.outputs()[i].notes[k])),
    {
        let ghost outs = self.outputs();
        let ghost n0 = self.tracks@.len();
        let normalized = normalize_tempo_map(&self.tempo_evs, self.ppq);
        let MIDIFile { tracks, tempo_evs: tmap, .. } = self;
        let mut tracks = tracks;
        let n = tracks.len();
        let mut all_evs: Vec<Vec<MIDIEvent>> = Vec::new();
        let mut all_notes: Vec<Vec<Vec<Note>>> = Vec::new();
        let mut i: usize = 0;
        while i < n
            invariant
                n == n0,
                outs.len() == n0,
                tempo_map_ok(tmap@),
                i <= n,
                tracks@.len() == n - i,
                forall|j: int| 0 <= j < n - i ==> ready_for_pass_two(#[trigger] tracks@[j], tmap@),
                forall|j: int| 0 <= j < n - i ==> pass_two_result(#[trigger] tracks@[j], tmap@) == outs[i + j],
                all_evs@.len() == i,
                all_notes@.len() == i,
                forall|j: int| 0 <= j < i ==> (#[trigger] all_evs@[j])@ == outs[j].evs,
                forall|j: int| 0 <= j < i ==> sorted_by_key((#[trigger] all_evs@[j])@),
                forall|j: int| 0 <= j < i ==> (#[trigger] all_notes@[j])@.len() == 256,
                forall|j: int, k: int| 0 <= j < i && 0 <= k < 256 ==> (#[trigger] all_notes@[j]@[k])@ == outs[j].notes[k],
                forall|j: int, k: int| 0 <= j < i && 0 <= k < 256 ==> sorted_by_key((#[trigger] all_notes@[j]@[k])@),
            decreases n - i,
        {
            let ghost tr0 = tracks@;
            let t = tracks.remove(0);
            proof {
                assert(tr0[0] == t);
                assert forall|j: int| 0 <= j < n - i - 1 implies #[trigger] tracks@[j] == tr0[j + 1] by {}
            }
            let ghost evs = t.events()->Ok_0;
            let ghost out = pass_two_result(t, tmap@);
            let (e, nts) = finish_track(t, &tmap);
            proof {
                assert(fold_facts(out, evs, evs.len() as int, tmap@, t.ppq as nat, t.tick_based_parsing, t.track_num));
                assert(sorted_by_key(e@)) by {
                    assert(evs_facts(out.evs, crate::midi_track_parser::micros_at(tmap@, crate::midi_track_parser::ticks_upto(evs, evs.len() as int) as int, t.ppq as nat)));
                }
                assert forall|k: int| 0 <= k < 256 implies sorted_by_key((#[trigger] nts@[k])@) by {
                    assert(nts@[k]@ == out.notes[k]);
                    lemma_notes_sorted(out.notes[k], t.track_num);
                }
            }
            let ghost ae0 = all_evs@;
            let ghost an0 = all_notes@;
            all_evs.push(e);
            all_notes.push(nts);
            proof {
                assert forall|j: int| 0 <= j < i + 1 implies (#[trigger] all_evs@[j])@ == outs[j].evs && sorted_by_key(all_evs@[j]@) by {
                    if j < i {
                        assert(all_evs@[j] == ae0[j]);
                    }
                }
                assert forall|j: int| 0 <= j < i + 1 implies (#[trigger] all_notes@[j])@.len() == 256 by {
                    if j < i {
                        assert(all_notes@[j] == an0[j]);
                    }
                }
                assert forall|j: int, k: int| 0 <= j < i + 1 && 0 <= k < 256 implies (#[trigger] all_notes@[j]@[k])@ == outs[j].notes[k]
                    && sorted_by_key(all_notes@[j]@[k]@) by {
                    if j < i {
                        assert(all_notes@[j] == an0[j]);
                    }
                }
            }
            i = i + 1;
        }
        let ghost ev_views = views(all_evs@);
        proof {
            assert(ev_views =~= Seq::new(n0, |j: int| outs[j].evs));
            assert(all_sorted(ev_views)) by {
                assert forall|j: int| 0 <= j < ev_views.len() implies sorted_by_key(#[trigger] ev_views[j]) by {
                    assert(sorted_by_key(all_evs@[j]@));
                }
            }
        }
        *midi_evs = merge_midi_events(all_evs);
        let mut out_notes: Vec<Vec<Note>> = Vec::new();
        let mut k: usize = 0;
        while k < 256
            invariant
                n == n0,
                outs.len() == n0,
                k <= 256,
                all_notes@.len() == n,
                forall|j: int| 0 <= j < n ==> (#[trigger] all_notes@[j])@.len() == 256,
                forall|j: int, q: int| 0 <= j < n && k <= q < 256 ==> (#[trigger] all_notes@[j]@[q])@ == outs[j].notes[q],
                forall|j: int, q: int| 0 <= j < n && k <= q < 256 ==> sorted_by_key((#[trigger] all_notes@[j]@[q])@),
                out_notes@.len() == k,
                forall|q: int| 0 <= q < k ==> sorted_by_key((#[trigger] out_notes@[q])@),
                forall|q: int| 0 <= q < k ==> (#[trigger] out_notes@[q])@ == merge_all_spec(Seq::new(n0, |j: int| outs[j].notes[q])),
                forall|q: int| 0 <= q < k ==> (#[trigger] out_notes@[q])@.to_multiset()
                    == flatten_ms(Seq::new(n0, |j: int| outs[j].notes[q])),
            decreases 256 - k,
        {
            let mut per_key: Vec<Vec<Note>> = Vec::new();
            let mut j: usize = 0;
            while j < n
                invariant
                    n == n0,
                    outs.len() == n0,
                    k < 256,
                    j <= n,
                    all_notes@.len() == n,
                    forall|a: int| 0 <= a < n ==> (#[trigger] all_notes@[a])@.len() == 256,
                    forall|a: int, q: int| 0 <= a < n && k < q < 256 ==> (#[trigger] all_notes@[a]@[q])@ == outs[a].notes[q],
                    forall|a: int, q: int| 0 <= a < n && k < q < 256 ==> sorted_by_key((#[trigger] all_notes@[a]@[q])@),
                    forall|a: int| j <= a < n ==> (#[trigger] all_notes@[a]@[k as int])@ == outs[a].notes[k as int],
                    forall|a: int| j <= a < n ==> sorted_by_key((#[trigger] all_notes@[a]@[k as int])@),
                    per_key@.len() == j,
                    forall|a: int| 0 <= a < j ==> (#[trigger] per_key@[a])@ == outs[a].notes[k as int],
                    forall|a: int| 0 <= a < j ==> sorted_by_key((#[trigger] per_key@[a])@),
                decreases n - j,
            {
                let ghost an0 = all_notes@;
                let ghost pk0 = per_key@;
                let mut tmp: Vec<Note> = Vec::new();
                std::mem::swap(&mut all_notes[j][k], &mut tmp);
                per_key.push(tmp);
                proof {
                    assert forall|a: int| 0 <= a < n implies (#[trigger] all_notes@[a])@.len() == 256 by {
                        if a != j {
                            assert(all_notes@[a] == an0[a]);
                        }
                    }
                    assert forall|a: int, q: int| 0 <= a < n && k < q < 256 implies (#[trigger] all_notes@[a]@[q])@ == outs[a].notes[q]
                        && sorted_by_key(all_notes@[a]@[q]@) by {
                        if a != j {
                            assert(all_notes@[a] == an0[a]);
                        } else {
                            assert(all_notes@[a]@[q] == an0[a]@[q]);
                        }
                    }
                    assert forall|a: int| j + 1 <= a < n implies (#[trigger] all_notes@[a]@[k as int])@ == outs[a].notes[k as int]
                        && sorted_by_key(all_notes@[a]@[k as int]@) by {
                        assert(all_notes@[a] == an0[a]);
                    }
                    assert forall|a: int| 0 <= a < j + 1 implies (#[trigger] per_key@[a])@ == outs[a].notes[k as int]
                        && sorted_by_key(per_key@[a]@) by {
                        if a < j {
                            assert(per_key@[a] == pk0[a]);
                        }
                    }
                }
                j = j + 1;
            }
            let ghost pv = views(per_key@);
            proof {
                assert(pv =~= Seq::new(n0, |a: int| outs[a].notes[k as int]));
                assert(all_sorted(pv)) by {
                    assert forall|a: int| 0 <= a < pv.len() implies sorted_by_key(#[trigger] pv[a]) by {
                        assert(sorted_by_key(per_key@[a]@));
                    }
                }
            }
            let merged = merge_notes(per_key);
            let ghost on0 = out_notes@;
            out_notes.push(merged);
            proof {
                assert forall|q: int| 0 <= q < k + 1 implies sorted_by_key((#[trigger] out_notes@[q])@)
                    && out_notes@[q]@ == merge_all_spec(Seq::new(n0, |j: int| outs[j].notes[q]))
                    && out_notes@[q]@.to_multiset() == flatten_ms(Seq::new(n0, |j: int| outs[j].notes[q])) by {
                    if q < k {
                        assert(out_notes@[q] == on0[q]);
                    }
                }
            }
            k = k + 1;
        }
        *notes_out = out_notes;
        *tempo_evs = normalized;
    }
}

proof fn lemma_key_range_prefix(done: Seq<Seq<RawEvent>>, x: Seq<RawEvent>, n: int)
    requires
        0 <= n <= done.len(),
    ensures
        file_key_range(done.push(x), n) == file_key_range(done, n),
    decreases n,
{
    if n > 0 {
        lemma_key_range_prefix(done, x, n - 1);
        assert(done.push(x)[n - 1] == done[n - 1]);
    }
}

} // verus!

use vstd::arithmetic::div_mod::lemma_div_is_ordered;
use vstd::prelude::*;

use crate::iter_ext::flatten_ms;
use crate::midi_file::{pass_two_result, ready_for_pass_two, tempo_maps, MIDIFile, TrackPointer};

use crate::midi_track_parser::{
    integ, lemma_track_len, micros_at, tempo_map_of, note_time, pass_two_fold, pass_two_init, pass_two_step, close_spec, sat32, sat64,
    tempo_map_ok, tick_weight, ticks_upto, EventBody, MIDIEvent, Note, PassTwo, RawEvent, TempoEvent,
    DEFAULT_TEMPO, NOTE_END_UNMATCHED,
};

verus! {

proof fn lemma_integ_nonneg(tmap: Seq<TempoEvent>, id: int, t: int, cur: int, x: int)
    requires
        tempo_map_ok(tmap),
        0 <= id,
        cur >= 0,
        x >= t,
        id < tmap.len() ==> tmap[id].time >= t,
    ensures
        integ(tmap, id, t, cur, x) >= 0,
    decreases tmap.len() - id,
{
    if 0 <= id < tmap.len() && tmap[id].time < x {
        let tt = tmap[id].time as int;
        if id + 1 < tmap.len() {
            assert(tmap[id].time <= tmap[id + 1].time);
        }
        lemma_integ_nonneg(tmap, id + 1, tt, tmap[id].tempo as int, x);
        assert((tt - t) * cur >= 0) by (nonlinear_arith)
            requires tt >= t, cur >= 0;
    } else {
        assert((x - t) * cur >= 0) by (nonlinear_arith)
            requires x >= t, cur >= 0;
    }
}

proof fn lemma_integ_mono(tmap: Seq<TempoEvent>, id: int, t: int, cur: int, x: int, y: int)
    requires
        tempo_map_ok(tmap),
        0 <= id,
        cur >= 0,
        t <= x <= y,
        id < tmap.len() ==> tmap[id].time >= t,
    ensures
        integ(tmap, id, t, cur, x) <= integ(tmap, id, t, cur, y),
    decreases tmap.len() - id,
{
    if 0 <= id < tmap.len() {
        let tt = tmap[id].time as int;
        let c2 = tmap[id].tempo as int;
        if id + 1 < tmap.len() {
            assert(tmap[id].time <= tmap[id + 1].time);
        }
        if tt < x {
            lemma_integ_mono(tmap, id + 1, tt, c2, x, y);
        } else if tt < y {
            lemma_integ_nonneg(tmap, id + 1, tt, c2, y);
            assert((x - t) * cur <= (tt - t) * cur) by (nonlinear_arith)
                requires x <= tt, cur >= 0;
        } else {
            assert((x - t) * cur <= (y - t) * cur) by (nonlinear_arith)
                requires x <= y, cur >= 0;
        }
    } else {
        assert((x - t) * cur <= (y - t) * cur) by (nonlinear_arith)
            requires x <= y, cur >= 0;
    }
}

/// Later ticks are never earlier in time.
pub proof fn lemma_micros_mono(tmap: Seq<TempoEvent>, x: int, y: int, ppq: nat, tick_based: bool)
    requires
        tempo_map_ok(tmap),
        0 <= x <= y,
        ppq > 0,
    ensures
        tick_weight(tmap, x) <= tick_weight(tmap, y),
        micros_at(tmap, x, ppq) <= micros_at(tmap, y, ppq),
        note_time(tmap, x, ppq, tick_based) <= note_time(tmap, y, ppq, tick_based),
{
    lemma_integ_mono(tmap, 0, 0, DEFAULT_TEMPO as int, x, y);
    lemma_integ_nonneg(tmap, 0, 0, DEFAULT_TEMPO as int, x);
    let wx = tick_weight(tmap, x);
    let wy = tick_weight(tmap, y);
    lemma_div_is_ordered(wx, wy, ppq as int);
    lemma_div_is_ordered(0, wx, ppq as int);
    assert(0 <= wx / ppq as int <= wy / ppq as int);
    assert(sat64(wx / ppq as int) <= sat64(wy / ppq as int));
    assert(sat32(x) <= sat32(y));
    assert(sat32(sat64(wx / ppq as int) as int) <= sat32(sat64(wy / ppq as int) as int));
}

proof fn lemma_ticks_mono(evs: Seq<RawEvent>, a: int, b: int)
    requires
        0 <= a <= b,
    ensures
        ticks_upto(evs, a) <= ticks_upto(evs, b),
    decreases b - a,
{
    if a < b {
        lemma_ticks_mono(evs, a, b - 1);
    }
}

/// `ev` is an off event (a note-off, or a note-on with zero velocity) for `key` on channel `ch`.
pub open spec fn is_off_for(ev: RawEvent, key: int, ch: int) -> bool {
    &&& ev.status % 16 == ch
    &&& match ev.body {
        EventBody::NoteOff { key: k, vel } => k == key,
        EventBody::NoteOn { key: k, vel } => k == key && vel == 0,
        _ => false,
    }
}

/// A note either kept the unmatched end, or ended no earlier than it started,
/// at the time of an off event among the first `n` events for its key and channel.
pub open spec fn note_matched(
    nt: Note,
    key: int,
    evs: Seq<RawEvent>,
    n: int,
    tmap: Seq<TempoEvent>,
    ppq: nat,
    tb: bool,
) -> bool {
    nt.end == NOTE_END_UNMATCHED || (nt.start <= nt.end && exists|m: int|
        0 <= m < n && #[trigger] is_off_for(evs[m], key, nt.channel as int)
            && nt.end == note_time(tmap, ticks_upto(evs, m + 1) as int, ppq, tb))
}

/// Events sorted by time, none later than `cap`.
pub open spec fn evs_facts(e: Seq<MIDIEvent>, cap: u64) -> bool {
    &&& forall|i: int, j: int| 0 <= i <= j < e.len() ==> e[i].time <= e[j].time
    &&& forall|i: int| 0 <= i < e.len() ==> #[trigger] e[i].time <= cap
}

/// Notes per key sorted by start, none later than `cap_n`, each of this
/// track and matched; open notes point at notes of their key and channel.
pub open spec fn notes_facts(
    st: PassTwo,
    evs: Seq<RawEvent>,
    n: int,
    tmap: Seq<TempoEvent>,
    ppq: nat,
    tb: bool,
    track: usize,
    cap_n: u32,
) -> bool {
    &&& st.notes.len() == 256
    &&& st.stacks.len() == 4096
    &&& forall|k: int| 0 <= k < 256 ==> (#[trigger] st.notes[k]).len() <= n
    &&& forall|k: int, i: int, j: int| 0 <= k < 256 && 0 <= i <= j < st.notes[k].len() ==>
        st.notes[k][i].start <= st.notes[k][j].start
    &&& forall|k: int, i: int| 0 <= k < 256 && 0 <= i < st.notes[k].len() ==> {
        &&& (#[trigger] st.notes[k][i]).start <= cap_n
        &&& st.notes[k][i].track == track
        &&& st.notes[k][i].channel < 16
        &&& note_matched(st.notes[k][i], k, evs, n, tmap, ppq, tb)
    }
    &&& forall|x: int, j: int| 0 <= x < 4096 && 0 <= j < st.stacks[x].len() ==> {
        &&& (#[trigger] st.stacks[x][j]).0 < st.notes[x / 16].len()
        &&& st.notes[x / 16][st.stacks[x][j].0 as int].channel == x % 16
    }
}

/// The facts that pass two keeps after its first `n` events.
pub open spec fn fold_facts(
    st: PassTwo,
    evs: Seq<RawEvent>,
    n: int,
    tmap: Seq<TempoEvent>,
    ppq: nat,
    tb: bool,
    track: usize,
) -> bool {
    &&& evs_facts(st.evs, micros_at(tmap, ticks_upto(evs, n) as int, ppq))
    &&& notes_facts(st, evs, n, tmap, ppq, tb, track, note_time(tmap, ticks_upto(evs, n) as int, ppq, tb))
}

proof fn lemma_evs_push(e: Seq<MIDIEvent>, cap: u64, x: MIDIEvent)
    requires
        evs_facts(e, cap),
        cap <= x.time,
    ensures
        evs_facts(e.push(x), x.time),
{
    let e2 = e.push(x);
    assert forall|i: int| 0 <= i < e2.len() implies #[trigger] e2[i].time <= x.time by {
        if i < e.len() {
            assert(e2[i] == e[i]);
        }
    }
    assert forall|i: int, j: int| 0 <= i <= j < e2.len() implies e2[i].time <= e2[j].time by {
        if j < e.len() {
            assert(e2[i] == e[i] && e2[j] == e[j]);
        } else if i < e.len() {
            assert(e2[i] == e[i]);
        }
    }
}

proof fn lemma_evs_weaken(e: Seq<MIDIEvent>, cap: u64, cap2: u64)
    requires
        evs_facts(e, cap),
        cap <= cap2,
    ensures
        evs_facts(e, cap2),
{
}

/// The same notes, one more event seen, a later time bound.
proof fn lemma_notes_extend(
    st: PassTwo,
    evs: Seq<RawEvent>,
    n: int,
    tmap: Seq<TempoEvent>,
    ppq: nat,
    tb: bool,
    track: usize,
    cap_n: u32,
    cap2: u32,
)
    requires
        0 <= n < evs.len(),
        notes_facts(st, evs, n, tmap, ppq, tb, track, cap_n),
        cap_n <= cap2,
    ensures
        notes_facts(st, evs, n + 1, tmap, ppq, tb, track, cap2),
{
    assert forall|k: int, i: int| 0 <= k < 256 && 0 <= i < st.notes[k].len() implies
        note_matched(#[trigger] st.notes[k][i], k, evs, n + 1, tmap, ppq, tb) by {
        let nn = st.notes[k][i];
        assert(note_matched(nn, k, evs, n, tmap, ppq, tb));
        if nn.end != NOTE_END_UNMATCHED {
            let m = choose|m: int| 0 <= m < n && #[trigger] is_off_for(evs[m], k, nn.channel as int)
                && nn.end == note_time(tmap, ticks_upto(evs, m + 1) as int, ppq, tb);
            assert(0 <= m < n + 1 && is_off_for(evs[m], k, nn.channel as int));
        }
    }
}

proof fn lemma_note_on_facts(
    st: PassTwo,
    key: u8,
    ch: u8,
    vel: u8,
    nt: u32,
    evs: Seq<RawEvent>,
    n: int,
    tmap: Seq<TempoEvent>,
    ppq: nat,
    tb: bool,
    track: usize,
)
    requires
        0 <= n < evs.len(),
        evs.len() <= usize::MAX,
        ch < 16,
        notes_facts(st, evs, n + 1, tmap, ppq, tb, track, nt),
        st.notes[key as int].len() <= n,
    ensures
        ({
            let k0 = key as int;
            let idx = k0 * 16 + ch as int;
            let st2 = PassTwo {
                notes: st.notes.update(k0, st.notes[k0].push(
                    Note { start: nt, end: NOTE_END_UNMATCHED, channel: ch, track, velocity: vel },
                )),
                stacks: st.stacks.update(idx, st.stacks[idx].push((st.notes[k0].len() as usize, vel))),
                ..st
            };
            notes_facts(st2, evs, n + 1, tmap, ppq, tb, track, nt)
        }),
{
    lemma_idx(key, ch);
    let k0 = key as int;
    let idx = k0 * 16 + ch as int;
    let len0 = st.notes[k0].len();
    let st2 = PassTwo {
        notes: st.notes.update(k0, st.notes[k0].push(
            Note { start: nt, end: NOTE_END_UNMATCHED, channel: ch, track, velocity: vel },
        )),
        stacks: st.stacks.update(idx, st.stacks[idx].push((len0 as usize, vel))),
        ..st
    };
    assert(len0 <= n);
    assert forall|k: int| 0 <= k < 256 implies (#[trigger] st2.notes[k]).len() <= n + 1 by {
    }
    assert forall|k: int, i: int| 0 <= k < 256 && 0 <= i < st2.notes[k].len() implies {
        &&& (#[trigger] st2.notes[k][i]).start <= nt
        &&& st2.notes[k][i].track == track
        &&& st2.notes[k][i].channel < 16
        &&& note_matched(st2.notes[k][i], k, evs, n + 1, tmap, ppq, tb)
    } by {
        if k == k0 && i == len0 {
        } else {
            assert(st2.notes[k][i] == st.notes[k][i]);
        }
    }
    assert forall|k: int, i: int, j: int| 0 <= k < 256 && 0 <= i <= j < st2.notes[k].len() implies
        st2.notes[k][i].start <= st2.notes[k][j].start by {
        if k == k0 && j == len0 {
            if i < len0 {
                assert(st2.notes[k][i] == st.notes[k][i]);
            }
        } else {
            assert(st2.notes[k][i] == st.notes[k][i]);
            assert(st2.notes[k][j] == st.notes[k][j]);
        }
    }
    assert forall|x: int, j: int| 0 <= x < 4096 && 0 <= j < st2.stacks[x].len() implies {
        &&& (#[trigger] st2.stacks[x][j]).0 < st2.notes[x / 16].len()
        &&& st2.notes[x / 16][st2.stacks[x][j].0 as int].channel == x % 16
    } by {
        if x == idx && j == st.stacks[x].len() {
            assert(st2.stacks[x][j].0 == len0);
        } else {
            assert(st2.stacks[x][j] == st.stacks[x][j]);
            let q = st.stacks[x][j].0 as int;
            assert(st2.notes[x / 16][q] == st.notes[x / 16][q]);
        }
    }
}

proof fn lemma_idx(key: u8, ch: u8)
    requires
        ch < 16,
    ensures
        0 <= key as int * 16 + (ch as int) && key as int * 16 + (ch as int) < 4096,
        (key as int * 16 + ch as int) / 16 == key as int,
        (key as int * 16 + ch as int) % 16 == ch as int,
{
}

proof fn lemma_close_facts(
    st: PassTwo,
    key: u8,
    ch: u8,
    nt: u32,
    evs: Seq<RawEvent>,
    n: int,
    tmap: Seq<TempoEvent>,
    ppq: nat,
    tb: bool,
    track: usize,
)
    requires
        0 <= n < evs.len(),
        ch < 16,
        is_off_for(evs[n], key as int, ch as int),
        nt == note_time(tmap, ticks_upto(evs, n + 1) as int, ppq, tb),
        notes_facts(st, evs, n + 1, tmap, ppq, tb, track, nt),
    ensures
        close_spec(st, key, ch, nt).0.evs == st.evs,
        close_spec(st, key, ch, nt).0.metas == st.metas,
        notes_facts(close_spec(st, key, ch, nt).0, evs, n + 1, tmap, ppq, tb, track, nt),
{
    lemma_idx(key, ch);
    let idx = key as int * 16 + ch as int;
    let st2 = close_spec(st, key, ch, nt).0;
    let k0 = key as int;
    let stk = st.stacks[idx];
    if stk.len() > 0 {
        let id = stk.last().0 as int;
        assert(stk.last() == st.stacks[idx][stk.len() - 1]);
        assert(id < st.notes[k0].len());
        assert(st.notes[k0][id].channel == ch);
        let old_note = st.notes[k0][id];
        let new_note = st2.notes[k0][id];
        assert(new_note.start == old_note.start && new_note.channel == ch && new_note.end == nt);
        assert(note_matched(new_note, k0, evs, n + 1, tmap, ppq, tb)) by {
            assert(is_off_for(evs[n], k0, new_note.channel as int));
        }
        assert forall|k: int| 0 <= k < 256 implies (#[trigger] st2.notes[k]).len() <= n + 1 by {
            assert(st2.notes[k].len() == st.notes[k].len());
        }
        assert forall|k: int, i: int| 0 <= k < 256 && 0 <= i < st2.notes[k].len() implies {
            &&& (#[trigger] st2.notes[k][i]).start <= nt
            &&& st2.notes[k][i].track == track
            &&& st2.notes[k][i].channel < 16
            &&& note_matched(st2.notes[k][i], k, evs, n + 1, tmap, ppq, tb)
        } by {
            if k == k0 && i == id {
            } else {
                assert(st2.notes[k][i] == st.notes[k][i]);
            }
        }
        assert forall|k: int, i: int, j: int| 0 <= k < 256 && 0 <= i <= j < st2.notes[k].len() implies
            st2.notes[k][i].start <= st2.notes[k][j].start by {
            assert(st2.notes[k][i].start == st.notes[k][i].start);
            assert(st2.notes[k][j].start == st.notes[k][j].start);
        }
        assert forall|x: int, j: int| 0 <= x < 4096 && 0 <= j < st2.stacks[x].len() implies {
            &&& (#[trigger] st2.stacks[x][j]).0 < st2.notes[x / 16].len()
            &&& st2.notes[x / 16][st2.stacks[x][j].0 as int].channel == x % 16
        } by {
            assert(st2.stacks[x][j] == st.stacks[x][j]);
            let q = st.stacks[x][j].0 as int;
            assert(st2.notes[x / 16][q].channel == st.notes[x / 16][q].channel);
        }
    }
}

/// Pass two keeps its facts over its first `n` events.
pub proof fn lemma_fold_facts(
    s: Seq<u8>,
    evs: Seq<RawEvent>,
    n: int,
    tmap: Seq<TempoEvent>,
    ppq: nat,
    tb: bool,
    track: usize,
)
    requires
        tempo_map_ok(tmap),
        ppq > 0,
        0 <= n <= evs.len(),
        evs.len() <= usize::MAX,
    ensures
        fold_facts(pass_two_fold(s, evs, n, tmap, ppq, tb, track), evs, n, tmap, ppq, tb, track),
    decreases n,
{
    if n == 0 {
        let st = pass_two_init();
        assert(pass_two_fold(s, evs, 0, tmap, ppq, tb, track) == st);
        assert forall|x: int, j: int| 0 <= x < 4096 && 0 <= j < st.stacks[x].len() implies {
            &&& (#[trigger] st.stacks[x][j]).0 < st.notes[x / 16].len()
            &&& st.notes[x / 16][st.stacks[x][j].0 as int].channel == x % 16
        } by {
            assert(st.stacks[x].len() == 0);
        }
        assert forall|k: int| 0 <= k < 256 implies (#[trigger] st.notes[k]).len() <= n by {
        }
    } else {
        let p = n - 1;
        lemma_fold_facts(s, evs, p, tmap, ppq, tb, track);
        let st = pass_two_fold(s, evs, p, tmap, ppq, tb, track);
        let ev = evs[p];
        let t0 = ticks_upto(evs, p) as int;
        let t1 = ticks_upto(evs, n) as int;
        lemma_ticks_mono(evs, p, n);
        lemma_micros_mono(tmap, t0, t1, ppq, tb);
        let tm = micros_at(tmap, t1, ppq);
        let nt = note_time(tmap, t1, ppq, tb);
        let st2 = pass_two_step(st, ev, s, tm, nt, track);
        assert(pass_two_fold(s, evs, n, tmap, ppq, tb, track) == st2);
        let ch = ev.status % 16;
        assert(ch < 16);
        lemma_notes_extend(st, evs, p, tmap, ppq, tb, track, note_time(tmap, t0, ppq, tb), nt);
        lemma_evs_weaken(st.evs, micros_at(tmap, t0, ppq), tm);
        match ev.body {
            EventBody::NoteOff { key, vel } => {
                lemma_close_facts(st, key, ch, nt, evs, p, tmap, ppq, tb, track);
                let c = close_spec(st, key, ch, nt);
                lemma_evs_push(st.evs, tm, st2.evs.last());
                assert(st2.evs == st.evs.push(st2.evs.last()));
            },
            EventBody::NoteOn { key, vel } => {
                if vel == 0 {
                    lemma_close_facts(st, key, ch, nt, evs, p, tmap, ppq, tb, track);
                    lemma_evs_push(st.evs, tm, st2.evs.last());
                    assert(st2.evs == st.evs.push(st2.evs.last()));
                } else {
                    lemma_note_on_facts(st, key, ch, vel, nt, evs, p, tmap, ppq, tb, track);
                    lemma_evs_push(st.evs, tm, st2.evs.last());
                    assert(st2.evs == st.evs.push(st2.evs.last()));
                }
            },
            EventBody::Control { num, val } => {
                lemma_evs_push(st.evs, tm, st2.evs.last());
                assert(st2.evs == st.evs.push(st2.evs.last()));
            },
            EventBody::PitchBend { lsb, msb } => {
                lemma_evs_push(st.evs, tm, st2.evs.last());
                assert(st2.evs == st.evs.push(st2.evs.last()));
            },
            _ => {},
        }
    }
}

/// Every note that pass two yields on a track either keeps the unmatched
/// end, or ends, no earlier than it starts, at the time of an off event of
/// that same track for its key and channel.
pub proof fn law_note_matched(f: MIDIFile, i: int, k: int, j: int)
    requires
        f.ready(),
        0 <= i < f.tracks@.len(),
        0 <= k < 256,
        0 <= j < f.outputs()[i].notes[k].len(),
    ensures
        ({
            let t = f.tracks@[i];
            let evs = t.events()->Ok_0;
            note_matched(f.outputs()[i].notes[k][j], k, evs, evs.len() as int, f.tempo_evs@, t.ppq as nat, t.tick_based_parsing)
        }),
{
    let t = f.tracks@[i];
    assert(ready_for_pass_two(t, f.tempo_evs@));
    let s = t.rdr.window@;
    let evs = t.events()->Ok_0;
    if s.len() > 0 {
        lemma_track_len(s, 0, 0, t.rdr.buf_size as nat);
    }
    lemma_fold_facts(s, evs, evs.len() as int, f.tempo_evs@, t.ppq as nat, t.tick_based_parsing, t.track_num);
    assert(f.outputs()[i] == pass_two_result(t, f.tempo_evs@));
}

proof fn lemma_tempo_map_has(evs: Seq<RawEvent>, m: int, n: int)
    requires
        0 <= m < n <= evs.len(),
        evs[m].body is Tempo,
    ensures
        tempo_map_of(evs, n).contains(TempoEvent {
            time: ticks_upto(evs, m + 1) as u64,
            time_norm: 0,
            tempo: evs[m].body->Tempo_tempo,
        }),
    decreases n,
{
    let x = TempoEvent { time: ticks_upto(evs, m + 1) as u64, time_norm: 0, tempo: evs[m].body->Tempo_tempo };
    if n == m + 1 {
        assert(tempo_map_of(evs, n).last() == x);
        assert(tempo_map_of(evs, n)[tempo_map_of(evs, n).len() - 1] == x);
    } else {
        lemma_tempo_map_has(evs, m, n - 1);
        let prior = tempo_map_of(evs, n - 1);
        let k = choose|k: int| 0 <= k < prior.len() && prior[k] == x;
        match evs[n - 1].body {
            EventBody::Tempo { tempo } => {
                assert(tempo_map_of(evs, n)[k] == x);
            },
            _ => {},
        }
    }
}

proof fn lemma_flatten_count<T>(s: Seq<Seq<T>>, i: int, x: T)
    requires
        0 <= i < s.len(),
    ensures
        flatten_ms(s).count(x) >= s[i].to_multiset().count(x),
    decreases s.len(),
{
    if i > 0 {
        lemma_flatten_count(s.drop_first(), i - 1, x);
        assert(s.drop_first()[i - 1] == s[i]);
    }
}

/// The merged tempo map holds every tempo event of every track, stamped
/// with its absolute tick; it is sorted by tick.
pub proof fn law_tempo_map_complete(
    f: MIDIFile,
    b: Seq<u8>,
    ppq: u16,
    locs: Seq<TrackPointer>,
    tevs: Seq<Seq<RawEvent>>,
    i: int,
    m: int,
)
    requires
        f.parsed_from(b, ppq, locs, tevs),
        0 <= i < tevs.len(),
        0 <= m < tevs[i].len(),
        tevs[i][m].body is Tempo,
    ensures
        f.tempo_evs@.contains(TempoEvent {
            time: ticks_upto(tevs[i], m + 1) as u64,
            time_norm: 0,
            tempo: tevs[i][m].body->Tempo_tempo,
        }),
        forall|a: int, c: int| 0 <= a <= c < f.tempo_evs@.len() ==> f.tempo_evs@[a].time <= f.tempo_evs@[c].time,
{
    let x = TempoEvent { time: ticks_upto(tevs[i], m + 1) as u64, time_norm: 0, tempo: tevs[i][m].body->Tempo_tempo };
    lemma_tempo_map_has(tevs[i], m, tevs[i].len() as int);
    let maps = tempo_maps(tevs);
    assert(maps[i] == tempo_map_of(tevs[i], tevs[i].len() as int));
    broadcast use vstd::seq_lib::group_to_multiset_ensures;
    assert(maps[i].to_multiset().count(x) > 0);
    lemma_flatten_count(maps, i, x);
    assert(f.tempo_evs@.to_multiset().count(x) > 0);
}

} // verus!

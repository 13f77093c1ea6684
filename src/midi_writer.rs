use vstd::prelude::*;

use crate::midi_track_parser::{
    body_spec, event_spec, meta_spec, track_events, track_from, vlq_spec, EventBody, RawEvent,
};

verus! {

/// The variable-length encoding of `v` (below 2^28): 7 bits per byte, most
/// significant first, the top bit set on every byte but the last.
pub open spec fn vlq_bytes(v: nat) -> Seq<u8> {
    if v < 0x80 {
        seq![v as u8]
    } else if v < 0x4000 {
        seq![(0x80 + v / 0x80) as u8, (v % 0x80) as u8]
    } else if v < 0x200000 {
        seq![(0x80 + v / 0x4000) as u8, (0x80 + (v / 0x80) % 0x80) as u8, (v % 0x80) as u8]
    } else {
        seq![
            (0x80 + v / 0x200000) as u8,
            (0x80 + (v / 0x4000) % 0x80) as u8,
            (0x80 + (v / 0x80) % 0x80) as u8,
            (v % 0x80) as u8,
        ]
    }
}

/// An event that the writer can encode: a channel event whose status names
/// its kind, a tempo change or the end of the track (meta status 0xFF), with
/// a delta below 2^28.
pub open spec fn encodable(ev: RawEvent) -> bool {
    &&& ev.delta < 0x10000000
    &&& match ev.body {
        EventBody::NoteOff { .. } => ev.status / 16 == 0x8,
        EventBody::NoteOn { .. } => ev.status / 16 == 0x9,
        EventBody::Control { .. } => ev.status / 16 == 0xB,
        EventBody::PitchBend { .. } => ev.status / 16 == 0xE,
        EventBody::Tempo { tempo } => ev.status == 0xFF && tempo < 0x1000000,
        EventBody::EndOfTrack => ev.status == 0xFF,
        _ => false,
    }
}

/// The bytes after the status byte.
pub open spec fn body_bytes(body: EventBody) -> Seq<u8> {
    match body {
        EventBody::NoteOff { key, vel } => seq![key, vel],
        EventBody::NoteOn { key, vel } => seq![key, vel],
        EventBody::Control { num, val } => seq![num, val],
        EventBody::PitchBend { lsb, msb } => seq![lsb, msb],
        EventBody::Tempo { tempo } => seq![
            0x51u8,
            0x03u8,
            (tempo / 0x10000) as u8,
            ((tempo / 0x100) % 0x100) as u8,
            (tempo % 0x100) as u8,
        ],
        _ => seq![0x2Fu8, 0x00u8],
    }
}

/// One event: delta, explicit status byte, body.
pub open spec fn event_bytes(ev: RawEvent) -> Seq<u8> {
    vlq_bytes(ev.delta as nat) + seq![ev.status] + body_bytes(ev.body)
}

/// The events one after the other.
pub open spec fn track_bytes(evs: Seq<RawEvent>) -> Seq<u8>
    decreases evs.len(),
{
    if evs.len() == 0 {
        Seq::empty()
    } else {
        event_bytes(evs[0]) + track_bytes(evs.drop_first())
    }
}

/// A list the writer can encode and the reader reads to its end: every event
/// encodable, the end of track last and only there.
pub open spec fn writable(evs: Seq<RawEvent>) -> bool {
    &&& evs.len() > 0
    &&& forall|i: int| 0 <= i < evs.len() ==> encodable(#[trigger] evs[i])
    &&& evs.last().body == EventBody::EndOfTrack
    &&& forall|i: int| 0 <= i < evs.len() - 1 ==> (#[trigger] evs[i]).body != EventBody::EndOfTrack
}

/// Two decoded lists hold the same deltas, statuses and bodies.
pub open spec fn same_events(a: Seq<RawEvent>, b: Seq<RawEvent>) -> bool {
    &&& a.len() == b.len()
    &&& forall|i: int| 0 <= i < a.len() ==> (#[trigger] a[i]).delta == b[i].delta && a[i].status == b[i].status
        && a[i].body == b[i].body
}

proof fn lemma_vlq_decode(s: Seq<u8>, k: int, v: nat)
    requires
        v < 0x10000000,
        0 <= k,
        k + vlq_bytes(v).len() <= s.len(),
        s.subrange(k, k + vlq_bytes(v).len()) == vlq_bytes(v),
    ensures
        vlq_spec(s, k, 0, 0) == Ok::<(nat, int), crate::byte_reader::ParseError>((v, k + vlq_bytes(v).len())),
        1 <= vlq_bytes(v).len() <= 4,
{
    let b = vlq_bytes(v);
    assert forall|j: int| 0 <= j < b.len() implies s[k + j] == b[j] by {
        assert(s.subrange(k, k + b.len())[j] == s[k + j]);
    }
    if v < 0x80 {
        assert(b[0] == v as u8);
        assert(s[k] == v);
    } else if v < 0x4000 {
        let a1: nat = v / 0x80;
        assert(s[k] == 0x80 + a1 && s[k + 1] == v % 0x80);
        assert(vlq_spec(s, k, 0, 0) == vlq_spec(s, k + 1, a1, 1));
        assert(a1 * 128 + v % 0x80 == v);
        assert(vlq_spec(s, k + 1, a1, 1) == Ok::<(nat, int), crate::byte_reader::ParseError>((v, k + 2)));
    } else if v < 0x200000 {
        let a1: nat = v / 0x4000;
        let a2: nat = v / 0x80;
        assert(s[k] == 0x80 + a1 && s[k + 1] == 0x80 + a2 % 0x80 && s[k + 2] == v % 0x80);
        assert(a1 * 128 + a2 % 0x80 == a2);
        assert(a2 * 128 + v % 0x80 == v);
        assert(vlq_spec(s, k, 0, 0) == vlq_spec(s, k + 1, a1, 1));
        assert(vlq_spec(s, k + 1, a1, 1) == vlq_spec(s, k + 2, a2, 2));
        assert(vlq_spec(s, k + 2, a2, 2) == Ok::<(nat, int), crate::byte_reader::ParseError>((v, k + 3)));
    } else {
        let a1: nat = v / 0x200000;
        let a2: nat = v / 0x4000;
        let a3: nat = v / 0x80;
        assert(s[k] == 0x80 + a1 && s[k + 1] == 0x80 + a2 % 0x80 && s[k + 2] == 0x80 + a3 % 0x80 && s[k + 3] == v % 0x80);
        assert(a1 * 128 + a2 % 0x80 == a2);
        assert(a2 * 128 + a3 % 0x80 == a3);
        assert(a3 * 128 + v % 0x80 == v);
        assert(vlq_spec(s, k, 0, 0) == vlq_spec(s, k + 1, a1, 1));
        assert(vlq_spec(s, k + 1, a1, 1) == vlq_spec(s, k + 2, a2, 2));
        assert(vlq_spec(s, k + 2, a2, 2) == vlq_spec(s, k + 3, a3, 3));
        assert(vlq_spec(s, k + 3, a3, 3) == Ok::<(nat, int), crate::byte_reader::ParseError>((v, k + 4)));
    }
}

proof fn lemma_event_decode(s: Seq<u8>, k: int, ev: RawEvent, prev: u8, bs: nat)
    requires
        encodable(ev),
        0 <= k,
        k + event_bytes(ev).len() <= s.len(),
        s.len() <= usize::MAX,
        s.subrange(k, k + event_bytes(ev).len()) == event_bytes(ev),
    ensures
        event_spec(s, k, prev, bs) == Ok::<RawEvent, crate::byte_reader::ParseError>(
            RawEvent { next: (k + event_bytes(ev).len()) as usize, ..ev },
        ),
{
    reveal(event_spec);
    let e = event_bytes(ev);
    let vb = vlq_bytes(ev.delta as nat);
    let bb = body_bytes(ev.body);
    assert forall|j: int| 0 <= j < e.len() implies s[k + j] == e[j] by {
        assert(s.subrange(k, k + e.len())[j] == s[k + j]);
    }
    assert(s.subrange(k, k + vb.len()) =~= vb) by {
        assert forall|j: int| 0 <= j < vb.len() implies s.subrange(k, k + vb.len())[j] == vb[j] by {
            assert(e[j] == vb[j]);
        }
    }
    lemma_vlq_decode(s, k, ev.delta as nat);
    let j = k + vb.len();
    assert(s[j] == ev.status) by {
        assert(e[vb.len() as int] == ev.status);
    }
    assert forall|q: int| 0 <= q < bb.len() implies s[j + 1 + q] == bb[q] by {
        assert(e[vb.len() + 1 + q] == bb[q]);
    }
    assert(ev.status >= 0x80);
    match ev.body {
        EventBody::Tempo { tempo } => {
            assert(vlq_spec(s, j + 2, 0, 0) == Ok::<(nat, int), crate::byte_reader::ParseError>((3nat, j + 3)));
            assert(s[j + 3] * 0x10000 + s[j + 4] * 0x100 + s[j + 5] == tempo);
            assert(meta_spec(s, j + 1, bs) == Ok::<(EventBody, int), crate::byte_reader::ParseError>((ev.body, j + 6)));
        },
        EventBody::EndOfTrack => {
            assert(vlq_spec(s, j + 2, 0, 0) == Ok::<(nat, int), crate::byte_reader::ParseError>((0nat, j + 3)));
            assert(meta_spec(s, j + 1, bs) == Ok::<(EventBody, int), crate::byte_reader::ParseError>((ev.body, j + 3)));
        },
        _ => {
            assert(body_spec(s, j + 1, ev.status, bs) == Ok::<(EventBody, int), crate::byte_reader::ParseError>((ev.body, j + 3)));
        },
    }
}

proof fn lemma_track_decode(s: Seq<u8>, k: int, evs: Seq<RawEvent>, prev: u8, bs: nat)
    requires
        writable(evs),
        0 <= k <= s.len(),
        s.len() <= usize::MAX,
        s.subrange(k, s.len() as int) == track_bytes(evs),
    ensures
        track_from(s, k, prev, bs) matches Ok(dec) && same_events(dec, evs),
    decreases evs.len(),
{
    let ev = evs[0];
    let e = event_bytes(ev);
    let rest = evs.drop_first();
    assert(track_bytes(evs) == e + track_bytes(rest));
    let tail = s.subrange(k, s.len() as int);
    assert(s.subrange(k, k + e.len()) =~= e) by {
        assert forall|j: int| 0 <= j < e.len() implies s.subrange(k, k + e.len())[j] == e[j] by {
            assert(tail[j] == (e + track_bytes(rest))[j]);
        }
    }
    assert(encodable(ev));
    lemma_event_decode(s, k, ev, prev, bs);
    let next = k + e.len();
    let dev = RawEvent { next: next as usize, ..ev };
    if ev.body == EventBody::EndOfTrack {
        if evs.len() > 1 {
            assert(evs[0].body != EventBody::EndOfTrack);
        }
        assert(track_from(s, k, prev, bs) == Ok::<Seq<RawEvent>, crate::byte_reader::ParseError>(seq![dev]));
    } else {
        assert(evs.len() > 1);
        assert(writable(rest)) by {
            assert forall|i: int| 0 <= i < rest.len() implies encodable(#[trigger] rest[i]) by {
                assert(rest[i] == evs[i + 1]);
            }
            assert forall|i: int| 0 <= i < rest.len() - 1 implies (#[trigger] rest[i]).body != EventBody::EndOfTrack by {
                assert(rest[i] == evs[i + 1]);
            }
            assert(rest.last() == evs.last());
        }
        assert(s.subrange(next, s.len() as int) =~= track_bytes(rest)) by {
            assert forall|j: int| 0 <= j < s.len() - next implies s.subrange(next, s.len() as int)[j] == track_bytes(rest)[j] by {
                assert(tail[e.len() + j] == (e + track_bytes(rest))[e.len() + j]);
            }
        }
        lemma_track_decode(s, next, rest, ev.status, bs);
        let dr = track_from(s, next, ev.status, bs)->Ok_0;
        assert(track_from(s, k, prev, bs) == Ok::<Seq<RawEvent>, crate::byte_reader::ParseError>(seq![dev] + dr));
        let dec = seq![dev] + dr;
        assert forall|i: int| 0 <= i < dec.len() implies (#[trigger] dec[i]).delta == evs[i].delta && dec[i].status == evs[i].status
            && dec[i].body == evs[i].body by {
            if i > 0 {
                assert(dec[i] == dr[i - 1]);
                assert(rest[i - 1] == evs[i]);
            }
        }
    }
}

/// Writing a track and reading it back gives the same events: the same
/// deltas, statuses and bodies, in the same order.
pub proof fn law_round_trip(evs: Seq<RawEvent>, bs: nat)
    requires
        writable(evs),
        track_bytes(evs).len() <= usize::MAX,
    ensures
        track_events(track_bytes(evs), bs) matches Ok(dec) && same_events(dec, evs),
{
    let s = track_bytes(evs);
    assert(s == event_bytes(evs[0]) + track_bytes(evs.drop_first()));
    assert(s.len() > 0);
    assert(s.subrange(0, s.len() as int) =~= s);
    lemma_track_decode(s, 0, evs, 0, bs);
}

/// Appends the variable-length encoding of `v`.
fn push_vlq(out: &mut Vec<u8>, v: u64)
    requires
        v < 0x10000000,
    ensures
        final(out)@ == old(out)@ + vlq_bytes(v as nat),
{
    let ghost o = out@;
    if v < 0x80 {
        out.push(v as u8);
    } else if v < 0x4000 {
        out.push((0x80 + v / 0x80) as u8);
        out.push((v % 0x80) as u8);
    } else if v < 0x200000 {
        out.push((0x80 + v / 0x4000) as u8);
        out.push((0x80 + (v / 0x80) % 0x80) as u8);
        out.push((v % 0x80) as u8);
    } else {
        out.push((0x80 + v / 0x200000) as u8);
        out.push((0x80 + (v / 0x4000) % 0x80) as u8);
        out.push((0x80 + (v / 0x80) % 0x80) as u8);
        out.push((v % 0x80) as u8);
    }
    assert(out@ =~= o + vlq_bytes(v as nat));
}

/// Appends one event: delta, status, body.
fn push_event(out: &mut Vec<u8>, ev: RawEvent)
    requires
        encodable(ev),
    ensures
        final(out)@ == old(out)@ + event_bytes(ev),
{
    let ghost o = out@;
    push_vlq(out, ev.delta);
    let ghost o2 = out@;
    out.push(ev.status);
    match ev.body {
        EventBody::NoteOff { key, vel } => {
            out.push(key);
            out.push(vel);
        },
        EventBody::NoteOn { key, vel } => {
            out.push(key);
            out.push(vel);
        },
        EventBody::Control { num, val } => {
            out.push(num);
            out.push(val);
        },
        EventBody::PitchBend { lsb, msb } => {
            out.push(lsb);
            out.push(msb);
        },
        EventBody::Tempo { tempo } => {
            out.push(0x51);
            out.push(0x03);
            out.push((tempo / 0x10000) as u8);
            out.push(((tempo / 0x100) % 0x100) as u8);
            out.push((tempo % 0x100) as u8);
        },
        _ => {
            out.push(0x2F);
            out.push(0x00);
        },
    }
    assert(out@ =~= o + event_bytes(ev));
}

/// The bytes of a track body holding `evs`, each with an explicit status.
pub fn serialize_track(evs: &Vec<RawEvent>) -> (r: Vec<u8>)
    requires
        forall|i: int| 0 <= i < evs@.len() ==> encodable(#[trigger] evs@[i]),
    ensures
        r@ == track_bytes(evs@),
{
    let n = evs.len();
    let mut out: Vec<u8> = Vec::new();
    let mut i: usize = 0;
    proof {
        assert(evs@.subrange(0, n as int) =~= evs@);
        assert(out@ + track_bytes(evs@) =~= track_bytes(evs@));
    }
    while i < n
        invariant
            n == evs@.len(),
            i <= n,
            forall|j: int| 0 <= j < evs@.len() ==> encodable(#[trigger] evs@[j]),
            out@ + track_bytes(evs@.subrange(i as int, n as int)) == track_bytes(evs@),
        decreases n - i,
    {
        let ghost sub = evs@.subrange(i as int, n as int);
        let ghost o = out@;
        push_event(&mut out, evs[i]);
        proof {
            assert(sub[0] == evs@[i as int]);
            assert(sub.drop_first() =~= evs@.subrange(i + 1, n as int));
            assert(track_bytes(sub) == event_bytes(evs@[i as int]) + track_bytes(sub.drop_first()));
            assert(out@ + track_bytes(evs@.subrange(i + 1, n as int)) =~= o + track_bytes(sub));
        }
        i = i + 1;
    }
    proof {
        assert(evs@.subrange(n as int, n as int) =~= Seq::<RawEvent>::empty());
        assert(out@ + Seq::<u8>::empty() =~= out@);
    }
    out
}

} // verus!

use kanso_midi::byte_reader::{read_u16, read_u32, BufferedByteReader, ParseError};
use kanso_midi::midi_file::{MIDIFile, TrackPointer};
use kanso_midi::midi_track_parser::{MIDITrack, TempoEvent};
use kanso_midi::midi_track_parser::{
    read_event, read_vlq, EventBody, MIDIEvent, MIDIEventType, Note, RawEvent, NOTE_END_UNMATCHED,
};
use kanso_midi::midi_writer::serialize_track;

fn header(format: u16, tracks: u16, ppq: u16) -> Vec<u8> {
    let mut v = vec![0x4D, 0x54, 0x68, 0x64, 0, 0, 0, 6];
    v.extend_from_slice(&format.to_be_bytes());
    v.extend_from_slice(&tracks.to_be_bytes());
    v.extend_from_slice(&ppq.to_be_bytes());
    v
}

fn track(body: &[u8]) -> Vec<u8> {
    let mut v = vec![0x4D, 0x54, 0x72, 0x6B];
    v.extend_from_slice(&(body.len() as u32).to_be_bytes());
    v.extend_from_slice(body);
    v
}

fn parse(bytes: &[u8], tick_based: bool) -> Result<(Vec<MIDIEvent>, Vec<Vec<Note>>, MIDIFile), ParseError> {
    let f = MIDIFile::new(bytes, tick_based)?;
    let mut evs = Vec::new();
    let mut notes = Vec::new();
    let mut tempo = Vec::new();
    let probe = MIDIFile::new(bytes, tick_based)?;
    f.get_sequences(&mut evs, &mut notes, &mut tempo);
    Ok((evs, notes, probe))
}

fn single_note_file() -> Vec<u8> {
    let mut f = header(0, 1, 480);
    f.extend(track(&[0x00, 0x90, 0x3C, 0x64, 0x83, 0x60, 0x80, 0x3C, 0x00, 0x00, 0xFF, 0x2F, 0x00]));
    f
}

#[test]
fn header_bytes_give_one_note_at_default_tempo() {
    let bytes = single_note_file();
    assert_eq!(&bytes[0..14], &[0x4D, 0x54, 0x68, 0x64, 0, 0, 0, 6, 0, 0, 0, 1, 0x01, 0xE0]);
    let (evs, notes, file) = parse(&bytes, false).unwrap();
    assert_eq!(file.ppq, 480);
    assert_eq!(file.trk_count, 1);
    assert_eq!(notes.len(), 256);
    let total: usize = notes.iter().map(|n| n.len()).sum();
    assert_eq!(total, 1);
    assert_eq!(notes[60], vec![Note { start: 0, end: 500_000, channel: 0, track: 0, velocity: 0x64 }]);
    assert_eq!(evs.len(), 2);
    assert_eq!(evs[0], MIDIEvent { time: 0, command: MIDIEventType::NoteOn, data: [0, 60, 0x64] });
    assert_eq!(evs[1], MIDIEvent { time: 500_000, command: MIDIEventType::NoteOff, data: [0, 60, 0x64] });
}

#[test]
fn single_note_in_tick_mode() {
    let (evs, notes, _) = parse(&single_note_file(), true).unwrap();
    assert_eq!(notes[60], vec![Note { start: 0, end: 480, channel: 0, track: 0, velocity: 0x64 }]);
    assert_eq!(evs.iter().filter(|e| e.command == MIDIEventType::NoteOn).count(), 1);
    assert_eq!(evs.iter().filter(|e| e.command == MIDIEventType::NoteOff).count(), 1);
    assert_eq!(evs[1].time, 500_000);
}

#[test]
fn running_status_chain_decodes_each_note() {
    let mut f = header(0, 1, 480);
    f.extend(track(&[
        0x00, 0x90, 0x3C, 0x64, // note on, explicit status
        0x00, 0x3E, 0x50, // running status
        0x00, 0x40, 0x30, // running status
        0x60, 0x3C, 0x00, // running status, zero velocity: off
        0x00, 0xFF, 0x2F, 0x00,
    ]));
    let (evs, notes, file) = parse(&f, true).unwrap();
    assert_eq!(file.note_counts, vec![3]);
    assert_eq!(file.key_range, (0x3C, 0x40));
    assert_eq!(evs.len(), 4);
    assert_eq!(evs[1].data, [0, 0x3E, 0x50]);
    assert_eq!(evs[2].data, [0, 0x40, 0x30]);
    assert_eq!(evs[3].command, MIDIEventType::NoteOff);
    assert_eq!(notes[0x3C], vec![Note { start: 0, end: 0x60, channel: 0, track: 0, velocity: 0x64 }]);
    assert_eq!(notes[0x3E][0].end, NOTE_END_UNMATCHED);
    assert_eq!(notes[0x40][0].start, 0);
}

#[test]
fn tempo_change_in_one_track_times_another() {
    let mut f = header(1, 2, 480);
    // track 1: at tick 960, tempo 250000 (0x03D090)
    f.extend(track(&[0x87, 0x40, 0xFF, 0x51, 0x03, 0x03, 0xD0, 0x90, 0x00, 0xFF, 0x2F, 0x00]));
    // track 2: note on at tick 1920, off 480 ticks later
    f.extend(track(&[0x8F, 0x00, 0x91, 0x45, 0x70, 0x83, 0x60, 0x81, 0x45, 0x00, 0x00, 0xFF, 0x2F, 0x00]));
    let (evs, notes, file) = parse(&f, false).unwrap();
    assert_eq!(file.tempo_evs.len(), 1);
    assert_eq!(file.tempo_evs[0].time, 960);
    assert_eq!(file.tempo_evs[0].tempo, 250_000);
    assert_eq!(notes[0x45].len(), 1);
    assert_eq!(notes[0x45][0].start, 1_500_000);
    assert_eq!(notes[0x45][0].end, 1_750_000);
    assert_eq!(notes[0x45][0].track, 1);
    assert_eq!(notes[0x45][0].channel, 1);
    assert_eq!(evs[0].time, 1_500_000);
    let again = MIDIFile::new(&f, false).unwrap();
    let (mut e2, mut n2, mut t2) = (Vec::new(), Vec::new(), Vec::new());
    again.get_sequences(&mut e2, &mut n2, &mut t2);
    assert_eq!(t2.len(), 1);
    assert_eq!((t2[0].time, t2[0].time_norm, t2[0].tempo), (960, 1_000_000, 250_000));
}

#[test]
fn empty_tracks_produce_no_events() {
    let mut f = header(1, 2, 96);
    f.extend(track(&[0x00, 0xFF, 0x2F, 0x00]));
    f.extend(track(&[]));
    let (evs, notes, file) = parse(&f, false).unwrap();
    assert!(evs.is_empty());
    assert!(notes.iter().all(|n| n.is_empty()));
    assert_eq!(file.track_locations[1], TrackPointer { start: 14 + 8 + 4 + 8, len: 0 });
}

#[test]
fn format_two_is_malformed() {
    let mut f = header(2, 1, 480);
    f.extend(track(&[0x00, 0xFF, 0x2F, 0x00]));
    assert_eq!(MIDIFile::new(&f, false).err(), Some(ParseError::Malformed(0)));
}

#[test]
fn bad_magic_and_zero_ppq_are_malformed() {
    let mut f = header(0, 1, 480);
    f[0] = b'X';
    assert_eq!(MIDIFile::new(&f, false).err(), Some(ParseError::Malformed(0)));
    let mut g = header(0, 1, 0);
    g.extend(track(&[0x00, 0xFF, 0x2F, 0x00]));
    assert_eq!(MIDIFile::new(&g, false).err(), Some(ParseError::Malformed(0)));
    assert_eq!(MIDIFile::new(&[0x4D, 0x54], false).err(), Some(ParseError::Malformed(0)));
}

#[test]
fn track_length_overrun_is_malformed() {
    let mut f = header(0, 1, 480);
    f.extend_from_slice(&[0x4D, 0x54, 0x72, 0x6B, 0, 0, 0, 50, 0x00, 0xFF, 0x2F, 0x00]);
    assert_eq!(MIDIFile::new(&f, false).err(), Some(ParseError::Malformed(14)));
    let mut g = header(1, 2, 480);
    g.extend(track(&[0x00, 0xFF, 0x2F, 0x00]));
    g.extend_from_slice(&[0x4D, 0x54, 0x72, 0x6C, 0, 0, 0, 0]);
    assert_eq!(MIDIFile::new(&g, false).err(), Some(ParseError::Malformed(26)));
}

#[test]
fn overlong_quantity_in_a_track_names_its_chunk() {
    let mut f = header(1, 2, 480);
    f.extend(track(&[0x00, 0xFF, 0x2F, 0x00]));
    f.extend(track(&[0x81, 0x80, 0x80, 0x80, 0x00, 0xFF, 0x2F, 0x00]));
    assert_eq!(MIDIFile::new(&f, false).err(), Some(ParseError::Malformed(26)));
}

#[test]
fn track_without_end_is_out_of_range() {
    let mut f = header(0, 1, 480);
    f.extend(track(&[0x00, 0x90, 0x3C, 0x64]));
    assert_eq!(MIDIFile::new(&f, false).err(), Some(ParseError::OutOfRange));
}

#[test]
fn unmatched_note_keeps_sentinel_end() {
    let mut f = header(0, 1, 480);
    f.extend(track(&[0x00, 0x92, 0x30, 0x40, 0x10, 0xFF, 0x2F, 0x00]));
    let (_, notes, _) = parse(&f, true).unwrap();
    assert_eq!(notes[0x30], vec![Note { start: 0, end: NOTE_END_UNMATCHED, channel: 2, track: 0, velocity: 0x40 }]);
}

#[test]
fn control_pitch_bend_and_sysex() {
    let mut f = header(0, 1, 480);
    f.extend(track(&[
        0x00, 0xF0, 0x03, 0x01, 0x02, 0xF7, // sysex, skipped
        0x00, 0xB3, 0x07, 0x64, // control
        0x00, 0xE3, 0x00, 0x40, // pitch bend centre
        0x00, 0xC3, 0x05, // program change, skipped
        0x00, 0xFF, 0x06, 0x02, b'h', b'i', // marker
        0x00, 0xFF, 0x2F, 0x00,
    ]));
    let (evs, _, _) = parse(&f, false).unwrap();
    assert_eq!(evs.len(), 2);
    assert_eq!(evs[0], MIDIEvent { time: 0, command: MIDIEventType::ControlEvent, data: [3, 7, 0x64] });
    assert_eq!(evs[1], MIDIEvent { time: 0, command: MIDIEventType::PitchBend, data: [3, 0, 0x40] });
}

#[test]
fn vlq_longer_than_four_bytes_is_malformed() {
    let data = [0x81u8, 0x80, 0x80, 0x80, 0x00];
    let mut r = BufferedByteReader::new(&data, 0, 5, 100).unwrap();
    assert_eq!(read_vlq(&mut r), Err(ParseError::Malformed(4)));
    let ok = [0x83u8, 0x60];
    let mut r2 = BufferedByteReader::new(&ok, 0, 2, 100).unwrap();
    assert_eq!(read_vlq(&mut r2), Ok(480));
    assert_eq!(r2.pos, 2);
}

#[test]
fn reader_errors() {
    let data = [1u8, 2, 3, 4, 5, 6];
    assert!(BufferedByteReader::new(&data, 4, 3, 10).is_err());
    let mut r = BufferedByteReader::new(&data, 1, 4, 2).unwrap();
    assert_eq!(r.read(3).err(), Some(ParseError::OversizedRead));
    assert_eq!(r.read(2).unwrap(), vec![2, 3]);
    assert_eq!(r.read_byte(), Ok(4));
    assert_eq!(r.read(2).err(), Some(ParseError::OutOfRange));
    assert_eq!(r.seek(5, 0), Err(ParseError::OutOfRange));
    assert_eq!(r.seek(-4, 1), Err(ParseError::OutOfRange));
    assert_eq!(r.seek(0, 0), Ok(()));
    assert_eq!(r.pos, 1);
    assert_eq!(r.skip_bytes(4), Ok(()));
    assert_eq!(r.read_byte(), Err(ParseError::OutOfRange));
}

#[test]
fn big_endian_reads() {
    let b = [0x4Du8, 0x54, 0x68, 0x64, 0x01, 0xE0];
    assert_eq!(read_u32(&b, 0), Some(0x4D546864));
    assert_eq!(read_u16(&b, 4), Some(480));
    assert_eq!(read_u16(&b, 5), None);
    assert_eq!(read_u32(&b, 3), None);
}

#[test]
fn tempo_meta_decodes_as_tempo_body() {
    let data = [0x00u8, 0xFF, 0x51, 0x03, 0x07, 0xA1, 0x20];
    let mut r = BufferedByteReader::new(&data, 0, data.len(), 100).unwrap();
    let ev = read_event(&mut r, 0).unwrap();
    assert_eq!(ev.body, EventBody::Tempo { tempo: 500_000 });
    assert_eq!(ev.next, data.len());
}

#[test]
fn written_track_reads_back_the_same_events() {
    let evs = vec![
        RawEvent { delta: 0, status: 0xFF, body: EventBody::Tempo { tempo: 600_000 }, next: 0 },
        RawEvent { delta: 0, status: 0x91, body: EventBody::NoteOn { key: 60, vel: 100 }, next: 0 },
        RawEvent { delta: 200_000, status: 0xB1, body: EventBody::Control { num: 7, val: 90 }, next: 0 },
        RawEvent { delta: 0x0FFF_FFFF, status: 0x81, body: EventBody::NoteOff { key: 60, vel: 0 }, next: 0 },
        RawEvent { delta: 130, status: 0xE1, body: EventBody::PitchBend { lsb: 1, msb: 64 }, next: 0 },
        RawEvent { delta: 0, status: 0xFF, body: EventBody::EndOfTrack, next: 0 },
    ];
    let bytes = serialize_track(&evs);
    assert_eq!(&bytes[0..7], &[0x00, 0xFF, 0x51, 0x03, 0x09, 0x27, 0xC0]);
    let mut r = BufferedByteReader::new(&bytes, 0, bytes.len(), 100).unwrap();
    let mut prev = 0u8;
    let mut back = Vec::new();
    loop {
        let ev = read_event(&mut r, prev).unwrap();
        prev = ev.status;
        back.push(ev);
        if ev.body == EventBody::EndOfTrack {
            break;
        }
    }
    assert_eq!(back.len(), evs.len());
    for (a, b) in back.iter().zip(evs.iter()) {
        assert_eq!((a.delta, a.status, a.body), (b.delta, b.status, b.body));
    }
    assert_eq!(r.pos, bytes.len());
}

#[test]
fn tempo_map_holds_every_tempo_event_in_tick_order() {
    let mut f = header(1, 2, 96);
    f.extend(track(&[0x60, 0xFF, 0x51, 0x03, 0x0F, 0x42, 0x40, 0x60, 0xFF, 0x51, 0x03, 0x07, 0xA1, 0x20, 0x00, 0xFF, 0x2F, 0x00]));
    f.extend(track(&[0x81, 0x00, 0xFF, 0x51, 0x03, 0x03, 0xD0, 0x90, 0x00, 0xFF, 0x2F, 0x00]));
    let file = MIDIFile::new(&f, false).unwrap();
    let got: Vec<(u64, u32)> = file.tempo_evs.iter().map(|t| (t.time, t.tempo)).collect();
    assert_eq!(got, vec![(96, 1_000_000), (128, 250_000), (192, 500_000)]);
}

#[test]
fn pass_one_skips_an_unknown_meta_by_its_length() {
    let body = [0x00u8, 0xFF, 0x60, 0x03, 1, 2, 3, 0x05, 0x90, 0x40, 0x50, 0x00, 0xFF, 0x2F, 0x00];
    let loc = TrackPointer { start: 0, len: body.len() as u32 };
    let mut t = MIDITrack::new(0, 96, &body, &loc, true).unwrap();
    assert_eq!(t.parse_ev(), Ok(()));
    assert_eq!(t.rdr.pos, 7);
    assert!(!t.ended);
    while !t.ended {
        assert_eq!(t.parse_ev(), Ok(()));
    }
    assert_eq!(t.note_count, 1);
    assert_eq!(t.key_range, (0x40, 0x40));
    assert_eq!(t.track_len, 5);
    assert!(t.midi_evs.is_empty() && t.notes.is_empty() && t.meta_evs.is_empty());
}

#[test]
fn pass_two_over_an_end_only_track_yields_nothing() {
    let body = [0x00u8, 0xFF, 0x2F, 0x00];
    let loc = TrackPointer { start: 0, len: 4 };
    let mut t = MIDITrack::new(0, 480, &body, &loc, false).unwrap();
    while !t.ended {
        t.parse_ev().unwrap();
    }
    t.prep_for_pass_two();
    let tmap: Vec<TempoEvent> = Vec::new();
    while !t.ended {
        assert_eq!(t.parse_pass_two(&tmap), Ok(()));
    }
    assert!(t.midi_evs.is_empty() && t.meta_evs.is_empty() && t.tempo_evs.is_empty());
    assert_eq!(t.notes.len(), 256);
    assert!(t.notes.iter().all(|n| n.is_empty()));
}

#[test]
fn equal_times_keep_track_order_in_the_stream() {
    let mut f = header(1, 3, 96);
    f.extend(track(&[0x00, 0xB0, 0x01, 0x01, 0x00, 0xFF, 0x2F, 0x00]));
    f.extend(track(&[0x00, 0xB1, 0x02, 0x02, 0x00, 0xFF, 0x2F, 0x00]));
    f.extend(track(&[0x00, 0xB2, 0x03, 0x03, 0x00, 0xFF, 0x2F, 0x00]));
    let (evs, _, _) = parse(&f, false).unwrap();
    let chans: Vec<u8> = evs.iter().map(|e| e.data[0]).collect();
    assert_eq!(chans, vec![0, 1, 2]);
}

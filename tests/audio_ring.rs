use kanso_midi::midi_track_parser::{MIDIEvent, MIDIEventType};
use kanso_midi::prerender_audio::{
    event_target, event_target_frame, synth_action, EventTarget, SynthAction, get_skipping_velocity, note_passes, pitch_bend_value, scale_time, transpose_key,
    ProducerAction, RingBuffer, UnsafeVec,
};

#[test]
fn backpressure_stops_at_a_full_ring() {
    let mut ring: RingBuffer<i32> = RingBuffer::new(44100, 0);
    let target = 50_000usize;
    let first = ring.producer_next(target);
    assert_eq!(first, ProducerAction::Pull(44100));
    let samples: Vec<i32> = (0..2 * 44100).collect();
    ring.write_frames(&samples);
    assert_eq!(ring.write_pos, ring.read_pos + 44100);
    assert_eq!(ring.producer_next(target), ProducerAction::Wait);
    let mut dst = vec![9; 2];
    ring.read_into(&mut dst, false, false, 0);
    assert_eq!(dst, vec![0, 1]);
    assert_eq!(ring.read_pos, 1);
    assert_eq!(ring.producer_next(target), ProducerAction::Pull(1));
    ring.write_frames(&vec![7, 8]);
    assert_eq!(ring.write_pos, 44101);
    assert_eq!(ring.producer_next(target), ProducerAction::Wait);
}

#[test]
fn exact_fill_reaches_the_event() {
    let mut ring: RingBuffer<i32> = RingBuffer::new(4, 0);
    let target = ring.read_pos + 4;
    assert_eq!(ring.producer_next(target), ProducerAction::Pull(4));
    ring.write_frames(&vec![1, 1, 2, 2, 3, 3, 4, 4]);
    assert_eq!(ring.producer_next(target), ProducerAction::Dispatch);
    assert_eq!(ring.producer_next(target + 1), ProducerAction::Wait);
    let mut dst = vec![0; 2];
    ring.read_into(&mut dst, false, false, 0);
    assert_eq!(ring.producer_next(target + 1), ProducerAction::Pull(1));
}

#[test]
fn writes_wrap_around_the_ring() {
    let mut ring: RingBuffer<i32> = RingBuffer::new(3, 0);
    ring.write_frames(&vec![1, 2, 3, 4]);
    let mut dst = vec![0; 4];
    ring.read_into(&mut dst, false, false, 0);
    assert_eq!(dst, vec![1, 2, 3, 4]);
    ring.write_frames(&vec![5, 6, 7, 8, 9, 10]);
    assert_eq!(ring.buf.get(0), 7);
    assert_eq!(ring.buf.get(1), 8);
    assert_eq!(ring.buf.get(4), 5);
    let mut out = vec![0; 6];
    ring.read_into(&mut out, false, false, 0);
    assert_eq!(out, vec![5, 6, 7, 8, 9, 10]);
    assert!(ring.read_pos <= ring.write_pos && ring.write_pos <= ring.read_pos + ring.frames);
}

#[test]
fn consumer_is_silent_when_paused_or_reset() {
    let mut ring: RingBuffer<i32> = RingBuffer::new(4, 0);
    ring.write_frames(&vec![5, 5, 6, 6]);
    let mut dst = vec![3; 4];
    ring.read_into(&mut dst, true, false, 0);
    assert_eq!(dst, vec![0, 0, 0, 0]);
    assert_eq!(ring.read_pos, 0);
    let mut dst2 = vec![3; 4];
    ring.read_into(&mut dst2, false, true, 0);
    assert_eq!(dst2, vec![0, 0, 0, 0]);
    assert_eq!(ring.read_pos, 0);
}

#[test]
fn underrun_copies_what_there_is() {
    let mut ring: RingBuffer<i32> = RingBuffer::new(8, 0);
    ring.write_frames(&vec![1, 2]);
    let mut dst = vec![9; 6];
    ring.read_into(&mut dst, false, false, 0);
    assert_eq!(dst, vec![1, 2, 0, 0, 0, 0]);
    assert_eq!(ring.read_pos, 3);
    ring.realign();
    assert_eq!(ring.write_pos, 3);
    let mut empty = vec![9; 2];
    ring.read_into(&mut empty, false, false, 0);
    assert_eq!(empty, vec![0, 0]);
}

#[test]
fn reset_zeroes_and_rewinds() {
    let mut ring: RingBuffer<i32> = RingBuffer::new(2, 0);
    ring.write_frames(&vec![4, 4, 4, 4]);
    ring.reset(0);
    assert_eq!((ring.read_pos, ring.write_pos), (0, 0));
    assert_eq!(ring.buf.get(3), 0);
    assert_eq!(ring.buffered_frames(), 0);
}

#[test]
fn load_shedding_threshold() {
    assert_eq!(get_skipping_velocity(11_700, 0), 20);
    assert_eq!(get_skipping_velocity(11_799, 0), 20);
    assert!(!note_passes(19, 20));
    assert!(note_passes(21, 20));
    assert!(!note_passes(14, 0));
    assert_eq!(get_skipping_velocity(0, 0), 127);
    assert_eq!(get_skipping_velocity(5, 100), 127);
    assert_eq!(get_skipping_velocity(1_000_000, 0), 0);
    assert_eq!(get_skipping_velocity(1100, 0), 126);
}

#[test]
fn seek_within_buffer_or_restart() {
    let mut ring: RingBuffer<i32> = RingBuffer::new(441_000, 0);
    ring.write_frames(&vec![0; 2 * 8 * 44100]);
    let start = 10_000_000i64;
    assert_eq!(ring.player_time_us(start, 44100), 10_000_000);
    assert_eq!(ring.buffer_us(44100), 8_000_000);
    assert!(!ring.needs_restart(12_000_000, start, 44100));
    assert!(ring.needs_restart(25_000_000, start, 44100));
    assert!(ring.needs_restart(10_000_000, start, 44100));
    ring.sync_player(12_000_000, start, 44100);
    assert_eq!(ring.read_pos, 2 * 44100);
    ring.sync_player(12_020_000, start, 44100);
    assert_eq!(ring.read_pos, 2 * 44100);
}

#[test]
fn transpose_drops_out_of_range_keys() {
    assert_eq!(transpose_key(60, 12), Some(72));
    assert_eq!(transpose_key(5, -10), None);
    assert_eq!(transpose_key(250, 10), None);
    assert_eq!(transpose_key(0, 0), Some(0));
}

#[test]
fn pitch_bend_is_centred() {
    assert_eq!(pitch_bend_value(0x00, 0x40), 0);
    assert_eq!(pitch_bend_value(0x00, 0x00), -8192);
    assert_eq!(pitch_bend_value(0x7F, 0x7F), 8191);
    let norm = pitch_bend_value(0x00, 0x60) as f32 / 8192.0;
    assert!((norm - 0.5).abs() < 1e-6);
}

#[test]
fn event_frames_with_speed_and_fps() {
    assert_eq!(event_target_frame(1_000_000, 1000, 0, 0, 44100), Some(44100));
    assert_eq!(event_target_frame(1_000_000, 2000, 0, 0, 48000), Some(24000));
    assert_eq!(event_target_frame(1_010_000, 1000, 60, 0, 60), Some(60));
    assert_eq!(event_target_frame(500_000, 1000, 0, 1_000_000, 44100), None);
    assert_eq!(event_target_frame(1_500_000, 1000, 0, 1_000_000, 44100), Some(22050));
    assert_eq!(scale_time(-3_000_000, 2000), -1_500_000);
    assert_eq!(scale_time(-1, 1000), -1);
    assert_eq!(scale_time(7, 2000), 3);
}

#[test]
fn storage_keeps_its_values() {
    let mut v = UnsafeVec::new(vec![1, 2, 3]);
    assert_eq!(v.len(), 3);
    v.set(1, 9);
    assert_eq!(v.get(1), 9);
}

#[test]
fn synth_actions_shed_only_notes() {
    let on = MIDIEvent { time: 0, command: MIDIEventType::NoteOn, data: [2, 60, 19] };
    assert_eq!(synth_action(&on, 11_700, 0, 0), SynthAction::Skip);
    let on21 = MIDIEvent { data: [2, 60, 21], ..on };
    assert_eq!(synth_action(&on21, 11_700, 0, 0), SynthAction::NoteOn { channel: 2, key: 60, vel: 21 });
    assert_eq!(synth_action(&on21, 11_700, 0, 200), SynthAction::Skip);
    let off = MIDIEvent { time: 0, command: MIDIEventType::NoteOff, data: [1, 60, 90] };
    assert_eq!(synth_action(&off, 0, 0, -12), SynthAction::Skip);
    assert_eq!(synth_action(&off, 13_700, 0, -12), SynthAction::NoteOff { channel: 1, key: 48 });
    let ctl = MIDIEvent { time: 0, command: MIDIEventType::ControlEvent, data: [3, 7, 1] };
    assert_eq!(synth_action(&ctl, 1_000_000, 0, 0), SynthAction::Control { channel: 3, num: 7, val: 1 });
    let pb = MIDIEvent { time: 0, command: MIDIEventType::PitchBend, data: [4, 0, 0x60] };
    assert_eq!(synth_action(&pb, 1_000_000, 0, 0), SynthAction::PitchBend { channel: 4, value: 4096 });
}

#[test]
fn notes_before_the_start_are_skipped() {
    let on = MIDIEvent { time: 500_000, command: MIDIEventType::NoteOn, data: [0, 60, 90] };
    assert_eq!(event_target(&on, 1000, 0, 1_000_000, 44100), EventTarget::Skip);
    let ctl = MIDIEvent { command: MIDIEventType::ControlEvent, ..on };
    assert_eq!(event_target(&ctl, 1000, 0, 1_000_000, 44100), EventTarget::At(0));
    let later = MIDIEvent { time: 2_000_000, ..on };
    assert_eq!(event_target(&later, 1000, 0, 1_000_000, 44100), EventTarget::At(44100));
}

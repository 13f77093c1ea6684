use kanso_midi::global_timer::{GlobalTimer, NORMAL_SPEED};
use kanso_midi::iter_ext::{
    merge_midi_events, merge_notes, merge_tempo_evs, merge_two_note_seqs, merge_two_seqs, merge_two_tempo_seqs,
};
use kanso_midi::midi_track_parser::{MIDIEvent, MIDIEventType, Note, TempoEvent};
use kanso_midi::settings::{AdvancedSettings, PlayerSettings};

fn note(start: u32, track: usize) -> Note {
    Note { start, end: start + 1, channel: 0, track, velocity: 64 }
}

fn ev(time: u64, tag: u8) -> MIDIEvent {
    MIDIEvent { time, command: MIDIEventType::ControlEvent, data: [0, tag, 0] }
}

fn tempo(time: u64, t: u32) -> TempoEvent {
    TempoEvent { time, time_norm: 0, tempo: t }
}

#[test]
fn note_merge_breaks_ties_by_track() {
    let a = vec![note(0, 1), note(10, 1)];
    let b = vec![note(0, 0), note(5, 0)];
    let m = merge_two_note_seqs(a, b);
    let keys: Vec<(u32, usize)> = m.iter().map(|n| (n.start, n.track)).collect();
    assert_eq!(keys, vec![(0, 0), (0, 1), (5, 0), (10, 1)]);
}

#[test]
fn k_way_note_merge_is_sorted() {
    let seqs = vec![vec![note(3, 0), note(9, 0)], vec![note(1, 1)], vec![], vec![note(3, 3), note(4, 3)], vec![note(0, 4)]];
    let m = merge_notes(seqs);
    let keys: Vec<(u32, usize)> = m.iter().map(|n| (n.start, n.track)).collect();
    assert_eq!(keys, vec![(0, 4), (1, 1), (3, 0), (3, 3), (4, 3), (9, 0)]);
    assert!(merge_notes(vec![]).is_empty());
}

#[test]
fn event_merge_keeps_first_stream_first_on_ties() {
    let m = merge_two_seqs(vec![ev(1, 1), ev(2, 2)], vec![ev(1, 3), ev(3, 4)]);
    let tags: Vec<u8> = m.iter().map(|e| e.data[1]).collect();
    assert_eq!(tags, vec![1, 3, 2, 4]);
    let all = merge_midi_events(vec![vec![ev(5, 1)], vec![ev(2, 2), ev(8, 3)], vec![ev(2, 4)]]);
    let times: Vec<u64> = all.iter().map(|e| e.time).collect();
    assert_eq!(times, vec![2, 2, 5, 8]);
}

#[test]
fn tempo_merge_is_sorted_by_tick() {
    let m = merge_two_tempo_seqs(vec![tempo(0, 1), tempo(960, 2)], vec![tempo(480, 3)]);
    assert_eq!(m.iter().map(|t| t.time).collect::<Vec<_>>(), vec![0, 480, 960]);
    let all = merge_tempo_evs(vec![vec![tempo(7, 1)], vec![tempo(3, 2)], vec![tempo(5, 3)]]);
    assert_eq!(all.iter().map(|t| t.tempo).collect::<Vec<_>>(), vec![2, 3, 1]);
}

#[test]
fn navigate_when_paused_reads_back_exactly() {
    let mut t = GlobalTimer::new();
    assert!(t.paused);
    t.navigate(-3_000_000);
    assert_eq!(t.get_time(), -3_000_000);
    assert_eq!(t.get_time_after(123_456_789), -3_000_000);
    t.navigate(42);
    assert_eq!(t.get_time(), 42);
}

#[test]
fn pause_then_play_keeps_the_time() {
    let mut t = GlobalTimer::new();
    t.navigate(1_000_000);
    t.play();
    assert!(!t.paused);
    let before = t.get_time_after(250_000);
    assert_eq!(before, 1_250_000);
    t.pause_after(250_000);
    assert_eq!(t.midi_time, 1_250_000);
    t.play();
    assert_eq!(t.get_time_after(0), before);
    let now = t.get_time();
    assert!((now - before).abs() <= 1000);
}

#[test]
fn speed_scales_elapsed_time() {
    let mut t = GlobalTimer::new();
    t.play();
    t.change_speed(2000);
    assert_eq!(t.speed, 2000);
    let base = t.midi_time;
    assert_eq!(t.get_time_after(1_000_000), base + 2_000_000);
    t.reset();
    assert_eq!(t.get_time(), 0);
    assert_eq!(NORMAL_SPEED, 1000);
}

#[test]
fn advanced_settings_defaults_and_limits() {
    let mut s = AdvancedSettings::new();
    assert!(s.limit_fps);
    assert_eq!(s.max_fps, 60);
    s.set_max_fps(10);
    assert_eq!(s.max_fps, 15);
    s.set_max_fps(144);
    assert_eq!(s.max_fps, 144);
    s.set_per_key_thread_count_for(-3, 8);
    assert_eq!(s.per_key_thread_count, 0);
    s.set_per_chan_thread_count_for(12, 8);
    assert_eq!(s.per_chan_thread_count, 8);
    s.set_per_key_thread_count(1_000_000);
    assert!(s.per_key_thread_count >= 1 && s.per_key_thread_count < 1_000_000);
}

#[test]
fn settings_round_trip_through_a_config() {
    let mut config = configparser::ini::Ini::new();
    let mut s = AdvancedSettings::new();
    s.max_fps = 90;
    s.load_settings(&mut config);
    assert_eq!(config.get("advanced", "max_fps"), Some(String::from("90")));
    let mut t = AdvancedSettings::new();
    t.load_settings(&mut config);
    assert_eq!(t.max_fps, 90);
    config.set("advanced", "limit_fps", Some(String::from("maybe")));
    t.limit_fps = false;
    t.load_settings(&mut config);
    assert!(t.limit_fps);

    let mut p = PlayerSettings::new();
    assert!(p.show_ui && p.tick_based && !p.fullscreen);
    p.load_settings(&mut config);
    assert_eq!(config.get("player", "tick_based"), Some(String::from("true")));
    p.tick_based = false;
    p.save_settings(&mut config);
    let mut q = PlayerSettings::new();
    q.load_settings(&mut config);
    assert!(!q.tick_based);
}

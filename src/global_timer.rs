use vstd::prelude::*;

verus! {

#[verifier::external_type_specification]
#[verifier::external_body]
pub struct ExInstant(std::time::Instant);

/// Relies on `std::time::Instant::now`: a reading of the monotonic clock.
#[verifier::external_body]
fn clock_now() -> std::time::Instant {
    std::time::Instant::now()
}

/// Relies on `std::time::Instant::duration_since`: the time from `earlier`
/// to `later` (zero when `later` is not after it), in whole microseconds.
#[verifier::external_body]
fn micros_between(earlier: &std::time::Instant, later: &std::time::Instant) -> u128 {
    later.duration_since(*earlier).as_micros()
}

/// Normal playback speed, in thousandths.
pub const NORMAL_SPEED: u32 = 1000;

pub open spec fn clamp_i64(x: int) -> i64 {
    if x > i64::MAX { i64::MAX } else if x < i64::MIN { i64::MIN } else { x as i64 }
}

/// The song time `elapsed_us` after the anchor: the anchored time, plus the
/// elapsed time scaled by the speed (in thousandths) unless paused.
pub open spec fn time_at(midi_time: i64, paused: bool, speed: u32, elapsed_us: u128) -> i64 {
    if paused { midi_time } else { clamp_i64(midi_time + elapsed_us * speed / 1000) }
}

/// The playback clock. Song time is in microseconds; `time` is the wall-clock
/// anchor from which time has run since the last play, seek or speed change.
pub struct GlobalTimer {
    pub time: std::time::Instant,
    pub midi_time: i64,
    pub paused: bool,
    /// Playback speed in thousandths (1000 is normal speed).
    pub speed: u32,
    pub time_changed: bool,
    pub pause_changed: bool,
    pub speed_changed: bool,
}

impl GlobalTimer {
    /// The song time `elapsed_us` after the anchor.
    pub open spec fn time_after(&self, elapsed_us: u128) -> i64 {
        time_at(self.midi_time, self.paused, self.speed, elapsed_us)
    }

    /// A paused clock at song time 0, normal speed.
    pub fn new() -> (r: Self)
        ensures
            r.midi_time == 0,
            r.paused,
            r.speed == NORMAL_SPEED,
            !r.time_changed && !r.pause_changed && !r.speed_changed,
    {
        GlobalTimer {
            time: clock_now(),
            midi_time: 0,
            paused: true,
            speed: NORMAL_SPEED,
            time_changed: false,
            pause_changed: false,
            speed_changed: false,
        }
    }

    /// The song time `elapsed_us` after the anchor.
    pub fn get_time_after(&self, elapsed_us: u128) -> (r: i64)
        ensures
            r == self.time_after(elapsed_us),
    {
        if self.paused {
            return self.midi_time;
        }
        if elapsed_us > 0x1_0000_0000_0000_0000_0000 {
            if self.speed == 0 {
                return self.midi_time;
            }
            assert(elapsed_us * self.speed / 1000 > 0x1_0000_0000_0000_0000) by (nonlinear_arith)
                requires elapsed_us > 0x1_0000_0000_0000_0000_0000, self.speed >= 1;
            return i64::MAX;
        }
        assert(elapsed_us * self.speed <= 0x1_0000_0000_0000_0000_0000 * 0x1_0000_0000) by (nonlinear_arith)
            requires elapsed_us <= 0x1_0000_0000_0000_0000_0000, self.speed <= u32::MAX;
        let adv: u128 = elapsed_us * self.speed as u128 / 1000;
        let t: i128 = self.midi_time as i128 + adv as i128;
        if t > i64::MAX as i128 { i64::MAX } else { t as i64 }
    }

    /// Stops the clock `elapsed_us` after the anchor, folding the time run
    /// into the song time.
    pub fn pause_after(&mut self, elapsed_us: u128)
        ensures
            final(self).midi_time == old(self).time_after(elapsed_us),
            final(self).paused,
            final(self).speed == old(self).speed,
            final(self).time == old(self).time,
            !old(self).paused ==> final(self).time_changed && final(self).pause_changed,
            old(self).paused ==> *final(self) == *old(self),
    {
        if self.paused {
            return;
        }
        self.midi_time = self.get_time_after(elapsed_us);
        self.paused = true;
        self.time_changed = true;
        self.pause_changed = true;
    }

    /// Stops the clock now.
    pub fn pause(&mut self)
        ensures
            final(self).paused,
            final(self).speed == old(self).speed,
            final(self).time == old(self).time,
            exists|e: u128| final(self).midi_time == #[trigger] old(self).time_after(e),
            !old(self).paused ==> final(self).time_changed && final(self).pause_changed,
            old(self).paused ==> *final(self) == *old(self),
    {
        let now = clock_now();
        let e = micros_between(&self.time, &now);
        self.pause_after(e);
    }

    /// Starts the clock with the anchor `anchor`.
    pub fn play_from(&mut self, anchor: std::time::Instant)
        ensures
            !final(self).paused,
            final(self).midi_time == old(self).midi_time,
            final(self).speed == old(self).speed,
            final(self).time == anchor,
            final(self).pause_changed == (old(self).pause_changed || old(self).paused),
    {
        self.time = anchor;
        let was = self.paused;
        self.paused = false;
        if was {
            self.pause_changed = true;
        }
    }

    /// Starts the clock now.
    pub fn play(&mut self)
        ensures
            !final(self).paused,
            final(self).midi_time == old(self).midi_time,
            final(self).speed == old(self).speed,
    {
        let now = clock_now();
        self.play_from(now);
    }

    /// Back to song time 0, paused.
    pub fn reset(&mut self)
        ensures
            final(self).midi_time == 0,
            final(self).paused,
            final(self).speed == old(self).speed,
            final(self).time_changed,
            final(self).pause_changed == (old(self).pause_changed || !old(self).paused),
    {
        self.midi_time = 0;
        let was = self.paused;
        self.paused = true;
        self.time_changed = true;
        if !was {
            self.pause_changed = true;
        }
    }

    /// The song time now.
    pub fn get_time(&self) -> (r: i64)
        ensures
            exists|e: u128| r == #[trigger] self.time_after(e),
            self.paused ==> r == self.midi_time,
    {
        let now = clock_now();
        let e = micros_between(&self.time, &now);
        self.get_time_after(e)
    }

    /// Seeks to song time `time`, anchored at `anchor`.
    pub fn navigate_from(&mut self, time: i64, anchor: std::time::Instant)
        ensures
            final(self).midi_time == time,
            final(self).paused == old(self).paused,
            final(self).speed == old(self).speed,
            final(self).time == anchor,
            final(self).time_changed,
    {
        self.time = anchor;
        self.midi_time = time;
        self.time_changed = true;
    }

    /// Seeks to song time `time` now.
    pub fn navigate(&mut self, time: i64)
        ensures
            final(self).midi_time == time,
            final(self).paused == old(self).paused,
            final(self).speed == old(self).speed,
            final(self).time_changed,
    {
        let now = clock_now();
        self.navigate_from(time, now);
    }

    /// Changes the speed `elapsed_us` after the anchor, re-anchoring at
    /// `anchor` so that the song time runs on without a jump.
    pub fn change_speed_after(&mut self, speed: u32, elapsed_us: u128, anchor: std::time::Instant)
        ensures
            final(self).midi_time == old(self).time_after(elapsed_us),
            final(self).speed == speed,
            final(self).paused == old(self).paused,
            final(self).time == anchor,
            final(self).speed_changed,
    {
        self.midi_time = self.get_time_after(elapsed_us);
        self.time = anchor;
        self.speed = speed;
        self.speed_changed = true;
    }

    /// Changes the speed now, keeping the song time continuous: the song time
    /// at the moment of the change becomes the new anchored time, and the
    /// anchor moves to that moment.
    pub fn change_speed(&mut self, speed: u32)
        ensures
            final(self).speed == speed,
            final(self).paused == old(self).paused,
            final(self).speed_changed,
            exists|e: u128| final(self).midi_time == #[trigger] old(self).time_after(e),
    {
        let now = clock_now();
        let e = micros_between(&self.time, &now);
        self.change_speed_after(speed, e, now);
    }
}

/// Pausing `elapsed_us` after the anchor (`t` to `p`) and then playing
/// (`p` to `q`) leaves the song time, read at once after the play, where it
/// stood when the pause came.
pub proof fn law_pause_play(t: GlobalTimer, p: GlobalTimer, q: GlobalTimer, elapsed_us: u128)
    requires
        !t.paused,
        p.midi_time == t.time_after(elapsed_us) && p.paused && p.speed == t.speed,
        q.midi_time == p.midi_time && !q.paused && q.speed == p.speed,
    ensures
        q.time_after(0) == t.time_after(elapsed_us),
{
}

/// After a seek to `time` (`t` to `p`), a paused clock reads `time`, however long after.
pub proof fn law_navigate_paused(t: GlobalTimer, p: GlobalTimer, time: i64, elapsed_us: u128)
    requires
        t.paused,
        p.midi_time == time && p.paused == t.paused,
    ensures
        p.time_after(elapsed_us) == time,
{
}

} // verus!

use vstd::prelude::*;

use crate::midi_track_parser::{MIDIEvent, MIDIEventType};

verus! {

/// Fixed-size storage for the PCM ring, shared by the producer and the consumer.
pub struct UnsafeVec<T> {
    data: Vec<T>,
}

impl<T> View for UnsafeVec<T> {
    type V = Seq<T>;

    closed spec fn view(&self) -> Seq<T> {
        self.data@
    }
}

impl<T: Copy> UnsafeVec<T> {
    /// Takes over `vec` as the storage.
    pub fn new(vec: Vec<T>) -> (r: Self)
        ensures
            r@ == vec@,
    {
        UnsafeVec { data: vec }
    }

    pub fn len(&self) -> (r: usize)
        ensures
            r == self@.len(),
    {
        self.data.len()
    }

    pub fn get(&self, index: usize) -> (r: T)
        requires
            index < self@.len(),
        ensures
            r == self@[index as int],
    {
        self.data[index]
    }

    pub fn set(&mut self, index: usize, value: T)
        requires
            index < old(self)@.len(),
        ensures
            final(self)@ == old(self)@.update(index as int, value),
    {
        self.data.set(index, value);
    }
}

/// Interleaved stereo ring of `frames` frames (`2 * frames` samples), with
/// the producer's and the consumer's positions counted in frames since the
/// session started.
pub struct RingBuffer<T> {
    pub buf: UnsafeVec<T>,
    pub frames: usize,
    pub read_pos: usize,
    pub write_pos: usize,
}

/// Where frame `pos` and channel `c` sit in a ring of `n` frames.
pub open spec fn slot(pos: int, c: int, n: int) -> int {
    (pos % n) * 2 + c
}

/// Channel `c` of the `f`-th frame after frame `w`, in ring storage `b` of `n` frames.
pub open spec fn frame_at<T>(b: Seq<T>, w: int, f: int, c: int, n: int) -> T {
    b[slot(w + f, c, n)]
}

/// Channel `c` of frame `f` in interleaved samples `s`.
pub open spec fn sample_at<T>(s: Seq<T>, f: int, c: int) -> T {
    s[2 * f + c]
}

/// How many frames after `from` the ring slot of frame `p` comes, in a ring of `n` frames.
pub open spec fn ring_dist(p: int, from: int, n: int) -> int {
    (p - from) % n
}

impl<T: Copy> RingBuffer<T> {
    /// The storage has the ring's size.
    pub open spec fn shape_ok(&self) -> bool {
        &&& self.frames > 0
        &&& self.buf@.len() == 2 * self.frames
        &&& 2 * self.frames <= usize::MAX
    }

    /// The producer is never behind the consumer, and never a whole ring ahead.
    pub open spec fn positions_ok(&self) -> bool {
        &&& self.read_pos <= self.write_pos
        &&& self.write_pos <= self.read_pos + self.frames
    }

    /// A ring of `frames` frames filled with `zero`, both positions at 0.
    pub fn new(frames: usize, zero: T) -> (r: Self)
        requires
            frames > 0,
            2 * frames <= usize::MAX,
        ensures
            r.shape_ok(),
            r.positions_ok(),
            r.frames == frames,
            r.read_pos == 0 && r.write_pos == 0,
            forall|i: int| 0 <= i < r.buf@.len() ==> r.buf@[i] == zero,
    {
        let len = 2 * frames;
        let mut v: Vec<T> = Vec::with_capacity(len);
        let mut i: usize = 0;
        while i < len
            invariant
                i <= len,
                v@.len() == i,
                forall|j: int| 0 <= j < i ==> v@[j] == zero,
            decreases len - i,
        {
            v.push(zero);
            i = i + 1;
        }
        RingBuffer { buf: UnsafeVec::new(v), frames, read_pos: 0, write_pos: 0 }
    }

    /// Zeroes the storage and puts both positions back at 0, for a new session.
    pub fn reset(&mut self, zero: T)
        requires
            old(self).shape_ok(),
        ensures
            final(self).shape_ok(),
            final(self).positions_ok(),
            final(self).frames == old(self).frames,
            final(self).read_pos == 0 && final(self).write_pos == 0,
            forall|i: int| 0 <= i < final(self).buf@.len() ==> final(self).buf@[i] == zero,
    {
        let len = self.buf.len();
        let mut i: usize = 0;
        while i < len
            invariant
                self.shape_ok(),
                len == self.buf@.len(),
                i <= len,
                forall|j: int| 0 <= j < i ==> self.buf@[j] == zero,
            decreases len - i,
        {
            self.buf.set(i, zero);
            i = i + 1;
        }
        self.read_pos = 0;
        self.write_pos = 0;
    }

    /// Frames written but not yet read (none when the consumer ran ahead).
    pub fn buffered_frames(&self) -> (r: usize)
        ensures
            r == if self.write_pos >= self.read_pos { self.write_pos - self.read_pos } else { 0 },
    {
        if self.write_pos >= self.read_pos { self.write_pos - self.read_pos } else { 0 }
    }

    /// Frames the producer may still write before it would lap the consumer.
    pub fn headroom(&self) -> (r: usize)
        requires
            self.positions_ok(),
            self.read_pos + self.frames <= usize::MAX,
        ensures
            r == self.read_pos + self.frames - self.write_pos,
    {
        self.read_pos + self.frames - self.write_pos
    }

    /// After the consumer ran ahead (an underrun or a seek), the producer
    /// resumes at the consumer's position.
    pub fn realign(&mut self)
        requires
            old(self).shape_ok(),
        ensures
            final(self).shape_ok(),
            final(self).buf@ == old(self).buf@,
            final(self).frames == old(self).frames,
            final(self).read_pos == old(self).read_pos,
            final(self).write_pos == if old(self).write_pos < old(self).read_pos { old(self).read_pos } else { old(self).write_pos },
            old(self).write_pos <= old(self).read_pos + old(self).frames ==> final(self).positions_ok(),
    {
        if self.write_pos < self.read_pos {
            self.write_pos = self.read_pos;
        }
    }

    /// Writes `samples` (interleaved, two per frame) at the producer's
    /// position, wrapping at the end of the ring, and advances it.
    pub fn write_frames(&mut self, samples: &Vec<T>)
        requires
            old(self).shape_ok(),
            old(self).positions_ok(),
            samples@.len() % 2 == 0,
            old(self).write_pos + samples@.len() / 2 <= old(self).read_pos + old(self).frames,
            old(self).read_pos + old(self).frames <= usize::MAX,
        ensures
            final(self).shape_ok(),
            final(self).positions_ok(),
            final(self).frames == old(self).frames,
            final(self).read_pos == old(self).read_pos,
            final(self).write_pos == old(self).write_pos + samples@.len() / 2,
            forall|f: int, c: int| 0 <= f < samples@.len() / 2 && 0 <= c < 2 ==>
                #[trigger] frame_at(final(self).buf@, old(self).write_pos as int, f, c, old(self).frames as int) == sample_at(samples@, f, c),
            forall|p: int, c: int| 0 <= p < old(self).frames && 0 <= c < 2
                && ring_dist(p, old(self).write_pos as int, old(self).frames as int) >= samples@.len() / 2 ==>
                #[trigger] final(self).buf@[p * 2 + c] == old(self).buf@[p * 2 + c],
    {
        let n = self.frames;
        let count = samples.len() / 2;
        let w0 = self.write_pos;
        let ghost b0 = self.buf@;
        let mut f: usize = 0;
        while f < count
            invariant
                self.shape_ok(),
                self.frames == n,
                self.read_pos == old(self).read_pos,
                self.write_pos == w0,
                w0 == old(self).write_pos,
                b0 == old(self).buf@,
                b0.len() == 2 * n,
                count == samples@.len() / 2,
                samples@.len() % 2 == 0,
                w0 + count <= usize::MAX,
                count <= n,
                f <= count,
                forall|g: int, c: int| 0 <= g < f && 0 <= c < 2 ==>
                    #[trigger] frame_at(self.buf@, w0 as int, g, c, n as int) == sample_at(samples@, g, c),
                forall|p: int, c: int| 0 <= p < n && 0 <= c < 2 && ring_dist(p, w0 as int, n as int) >= f ==>
                    #[trigger] self.buf@[p * 2 + c] == b0[p * 2 + c],
            decreases count - f,
        {
            let p: usize = (w0 + f) % n;
            let ghost before = self.buf@;
            self.buf.set(p * 2, samples[2 * f]);
            self.buf.set(p * 2 + 1, samples[2 * f + 1]);
            proof {
                assert forall|g: int, c: int| 0 <= g < f + 1 && 0 <= c < 2 implies
                    #[trigger] frame_at(self.buf@, w0 as int, g, c, n as int) == sample_at(samples@, g, c) by {
                    if g == f {
                        assert(slot(w0 + g, c, n as int) == p * 2 + c);
                        assert(p < n);
                        if c == 0 {
                            assert(self.buf@[p * 2] == samples@[2 * f]);
                        } else {
                            assert(self.buf@[p * 2 + 1] == samples@[2 * f + 1]);
                        }
                    } else {
                        lemma_slots_differ(w0 as int, g, f as int, n as int);
                        assert(slot(w0 + g, c, n as int) != p * 2 && slot(w0 + g, c, n as int) != p * 2 + 1);
                        assert(self.buf@[slot(w0 + g, c, n as int)] == before[slot(w0 + g, c, n as int)]);
                        assert(frame_at(before, w0 as int, g, c, n as int) == sample_at(samples@, g, c));
                    }
                }
                assert forall|q: int, c: int| 0 <= q < n && 0 <= c < 2 && ring_dist(q, w0 as int, n as int) >= f + 1 implies
                    #[trigger] self.buf@[q * 2 + c] == b0[q * 2 + c] by {
                    lemma_dist_of_slot(w0 as int, f as int, n as int);
                    assert(q != p);
                    assert(q * 2 + c != p * 2 && q * 2 + c != p * 2 + 1);
                }
            }
            f = f + 1;
        }
        self.write_pos = w0 + count;
    }
}

/// Frames the consumer can copy out of `want`: all of them, or on an
/// underrun what the producer has written past the consumer, if anything.
pub open spec fn copy_frames(read_pos: int, write_pos: int, want: int) -> int {
    if read_pos + want > write_pos {
        if write_pos > read_pos { write_pos - read_pos } else { 0 }
    } else {
        want
    }
}

/// What the producer does next for an event due at frame `target`.
#[derive(PartialEq, Eq, Structural, Clone, Copy, Debug)]
pub enum ProducerAction {
    /// Pull this many frames from the synthesizer into the ring.
    Pull(usize),
    /// The ring is full: wait for the consumer.
    Wait,
    /// The ring has reached the event: send it to the synthesizer.
    Dispatch,
}

impl<T: Copy> RingBuffer<T> {
    /// The sound device's callback: fills `dst` (interleaved, two samples per
    /// frame) from the consumer's position and advances it by `dst.len() / 2`
    /// frames. While paused or on a reset request it writes only `zero` and
    /// moves nothing. On an underrun it copies what there is and fills the
    /// rest with `zero`.
    pub fn read_into(&mut self, dst: &mut Vec<T>, paused: bool, reset_requested: bool, zero: T)
        requires
            old(self).shape_ok(),
            old(dst)@.len() % 2 == 0,
            old(self).read_pos + old(dst)@.len() / 2 <= usize::MAX,
        ensures
            final(self).shape_ok(),
            final(self).buf@ == old(self).buf@,
            final(self).frames == old(self).frames,
            final(self).write_pos == old(self).write_pos,
            final(dst)@.len() == old(dst)@.len(),
            paused || reset_requested ==> {
                &&& final(self).read_pos == old(self).read_pos
                &&& forall|i: int| 0 <= i < final(dst)@.len() ==> final(dst)@[i] == zero
            },
            !(paused || reset_requested) ==> {
                let want = old(dst)@.len() / 2;
                let copied = copy_frames(old(self).read_pos as int, old(self).write_pos as int, want as int);
                &&& final(self).read_pos == old(self).read_pos + want
                &&& forall|f: int, c: int| 0 <= f < copied && 0 <= c < 2 ==>
                    #[trigger] sample_at(final(dst)@, f, c) == frame_at(old(self).buf@, old(self).read_pos as int, f, c, old(self).frames as int)
                &&& forall|i: int| 2 * copied <= i < final(dst)@.len() ==> final(dst)@[i] == zero
            },
            !(paused || reset_requested) && old(self).read_pos + old(dst)@.len() / 2 <= old(self).write_pos
                && old(self).positions_ok() ==> final(self).positions_ok(),
    {
        let len = dst.len();
        let stopped = paused || reset_requested;
        let want = len / 2;
        let copied: usize = if stopped {
            0
        } else if self.read_pos + want > self.write_pos {
            if self.write_pos > self.read_pos { self.write_pos - self.read_pos } else { 0 }
        } else {
            want
        };
        let n = self.frames;
        let r0 = self.read_pos;
        let mut i: usize = 0;
        while i < len
            invariant
                self.shape_ok(),
                self.buf@ == old(self).buf@,
                self.frames == n,
                self.read_pos == r0,
                r0 == old(self).read_pos,
                self.write_pos == old(self).write_pos,
                dst@.len() == len,
                len % 2 == 0,
                want == len / 2,
                copied <= want,
                stopped ==> copied == 0,
                !stopped ==> copied == copy_frames(r0 as int, self.write_pos as int, want as int),
                r0 + want <= usize::MAX,
                i <= len,
                forall|f: int, c: int| 0 <= f < copied && 0 <= c < 2 && 2 * f + c < i ==>
                    #[trigger] sample_at(dst@, f, c) == frame_at(old(self).buf@, r0 as int, f, c, n as int),
                forall|j: int| 2 * copied <= j < i ==> dst@[j] == zero,
            decreases len - i,
        {
            let ghost d0 = dst@;
            if i < 2 * copied {
                let f: usize = i / 2;
                let c: usize = i % 2;
                let idx: usize = ((r0 + f) % n) * 2 + c;
                let v = self.buf.get(idx);
                dst.set(i, v);
                proof {
                    assert forall|g: int, cc: int| 0 <= g < copied && 0 <= cc < 2 && 2 * g + cc < i + 1 implies
                        #[trigger] sample_at(dst@, g, cc) == frame_at(old(self).buf@, r0 as int, g, cc, n as int) by {
                        if 2 * g + cc == i {
                            assert(g == f && cc == c);
                        } else {
                            assert(sample_at(dst@, g, cc) == sample_at(d0, g, cc));
                        }
                    }
                }
            } else {
                dst.set(i, zero);
                proof {
                    assert forall|g: int, cc: int| 0 <= g < copied && 0 <= cc < 2 && 2 * g + cc < i + 1 implies
                        #[trigger] sample_at(dst@, g, cc) == frame_at(old(self).buf@, r0 as int, g, cc, n as int) by {
                        assert(sample_at(dst@, g, cc) == sample_at(d0, g, cc));
                    }
                }
            }
            i = i + 1;
        }
        if !stopped {
            self.read_pos = r0 + want;
        }
    }

    /// The producer's next move for an event due at frame `target`: send it
    /// once the ring has reached it; else pull toward it as far as the
    /// consumer allows; wait when the ring is full.
    pub fn producer_next(&self, target: usize) -> (r: ProducerAction)
        requires
            self.positions_ok(),
            self.read_pos + self.frames <= usize::MAX,
        ensures
            target <= self.write_pos ==> r == ProducerAction::Dispatch,
            target > self.write_pos && self.write_pos == self.read_pos + self.frames ==> r == ProducerAction::Wait,
            target > self.write_pos && self.write_pos < self.read_pos + self.frames ==> r == ProducerAction::Pull(
                if target - self.write_pos <= self.read_pos + self.frames - self.write_pos {
                    (target - self.write_pos) as usize
                } else {
                    (self.read_pos + self.frames - self.write_pos) as usize
                },
            ),
    {
        if target <= self.write_pos {
            return ProducerAction::Dispatch;
        }
        let room = self.headroom();
        if room == 0 {
            return ProducerAction::Wait;
        }
        let need = target - self.write_pos;
        ProducerAction::Pull(if need <= room { need } else { room })
    }

    /// The playback position in microseconds: the session's start plus the
    /// frames the consumer has taken.
    pub fn player_time_us(&self, start_us: i64, sample_rate: u32) -> (r: i128)
        requires
            sample_rate > 0,
        ensures
            r == start_us + (self.read_pos as int * 1_000_000) / sample_rate as int,
    {
        start_us as i128 + (self.read_pos as u128 * 1_000_000 / sample_rate as u128) as i128
    }

    /// How far ahead of the consumer the producer is, in microseconds.
    pub fn buffer_us(&self, sample_rate: u32) -> (r: u128)
        requires
            sample_rate > 0,
        ensures
            r == (if self.write_pos >= self.read_pos { self.write_pos - self.read_pos } else { 0 }) as int
                * 1_000_000 / sample_rate as int,
    {
        self.buffered_frames() as u128 * 1_000_000 / sample_rate as u128
    }

    /// Whether a seek to `time_us` (already divided by the speed) must restart
    /// the producer: it lies before the playback position plus 10 ms, or
    /// beyond the buffered window less 100 ms. Otherwise the consumer's
    /// position is shifted within the buffer.
    pub fn needs_restart(&self, time_us: i64, start_us: i64, sample_rate: u32) -> (r: bool)
        requires
            sample_rate > 0,
        ensures
            ({
                let player = start_us + (self.read_pos as int * 1_000_000) / sample_rate as int;
                let buffered = (if self.write_pos >= self.read_pos { self.write_pos - self.read_pos } else { 0 }) as int
                    * 1_000_000 / sample_rate as int;
                r == (time_us < player + 10_000 || time_us > player + buffered - 100_000)
            }),
    {
        let player = self.player_time_us(start_us, sample_rate);
        let buffered = self.buffer_us(sample_rate);
        (time_us as i128) < player + 10_000 || (time_us as i128) > player + buffered as i128 - 100_000
    }

    /// Moves the consumer to the frame of `time_us` (already divided by the
    /// speed), unless it is within 30 ms of where it stands.
    pub fn sync_player(&mut self, time_us: i64, start_us: i64, sample_rate: u32)
        requires
            old(self).shape_ok(),
            sample_rate > 0,
        ensures
            final(self).shape_ok(),
            final(self).buf@ == old(self).buf@,
            final(self).frames == old(self).frames,
            final(self).write_pos == old(self).write_pos,
            ({
                let target = sync_target(time_us as int, start_us as int, sample_rate as int);
                let drift = if target >= old(self).read_pos { target - old(self).read_pos } else { old(self).read_pos - target };
                &&& drift * 1_000_000 > 30_000 * sample_rate ==> final(self).read_pos == target
                &&& drift * 1_000_000 <= 30_000 * sample_rate ==> final(self).read_pos == old(self).read_pos
            }),
    {
        let target = frame_of(time_us, start_us, sample_rate);
        let rp = self.read_pos;
        let drift: usize = if target >= rp { target - rp } else { rp - target };
        if drift as u128 * 1_000_000 > 30_000 * sample_rate as u128 {
            self.read_pos = target;
        }
    }
}

/// The frame (from the session's start) of time `time_us`; none before the
/// start, and at most the largest position.
pub open spec fn sync_target(time_us: int, start_us: int, sample_rate: int) -> int {
    let f = if time_us <= start_us { 0 } else { (time_us - start_us) * sample_rate / 1_000_000 };
    if f > usize::MAX { usize::MAX as int } else { f }
}

fn frame_of(time_us: i64, start_us: i64, sample_rate: u32) -> (r: usize)
    ensures
        r == sync_target(time_us as int, start_us as int, sample_rate as int),
{
    if time_us <= start_us {
        return 0;
    }
    let d: u128 = (time_us as i128 - start_us as i128) as u128;
    assert(d * sample_rate <= 0x1_0000_0000_0000_0000 * 0x1_0000_0000) by (nonlinear_arith)
        requires d <= 0x1_0000_0000_0000_0000, sample_rate <= 0xFFFF_FFFF;
    let f: u128 = d * sample_rate as u128 / 1_000_000;
    if f > usize::MAX as u128 { usize::MAX } else { f as usize }
}

/// The velocity under which notes are shed: 137 less the ring's occupancy
/// in hundreds of frames, clamped to `[0, 127]`.
pub open spec fn skip_threshold(write_pos: int, read_pos: int) -> int {
    let diff = 137 - (write_pos - read_pos) / 100;
    if diff > 127 { 127 } else if diff < 0 { 0 } else { diff }
}

/// The load-shedding threshold for the ring's current occupancy.
pub fn get_skipping_velocity(write_pos: usize, read_pos: usize) -> (r: u8)
    ensures
        r as int == skip_threshold(write_pos as int, read_pos as int),
{
    if write_pos < read_pos {
        return 127;
    }
    let occ: usize = (write_pos - read_pos) / 100;
    if occ <= 10 {
        127
    } else if occ >= 137 {
        0
    } else {
        (137 - occ) as u8
    }
}

/// Whether a note event with velocity `vel` is forwarded under shedding
/// threshold `threshold`: it must reach the threshold, and 15.
pub fn note_passes(vel: u8, threshold: u8) -> (r: bool)
    ensures
        r == (vel >= threshold && vel >= 15),
{
    vel >= threshold && vel >= 15
}

/// `key` moved by `transpose` semitones, or `None` when that leaves `0..=255`.
pub fn transpose_key(key: u8, transpose: i32) -> (r: Option<u8>)
    ensures
        0 <= key + transpose <= 255 ==> r == Some((key + transpose) as u8),
        !(0 <= key + transpose <= 255) ==> r is None,
{
    let k: i64 = key as i64 + transpose as i64;
    if k < 0 || k > 255 {
        None
    } else {
        Some(k as u8)
    }
}

/// The 14-bit pitch-bend value of the two data bytes (low first), centred on
/// 8192: from -8192 to 8191. Divided by 8192 it is the bend in `[-1, 1)`.
pub fn pitch_bend_value(lsb: u8, msb: u8) -> (r: i32)
    ensures
        r == (msb % 128) * 128 + (lsb % 128) - 8192,
        -8192 <= r < 8192,
{
    (msb % 128) as i32 * 128 + (lsb % 128) as i32 - 8192
}

/// What the producer sends to the synthesizer for one event.
#[derive(PartialEq, Eq, Structural, Clone, Copy, Debug)]
pub enum SynthAction {
    NoteOn { channel: u8, key: u8, vel: u8 },
    NoteOff { channel: u8, key: u8 },
    Control { channel: u8, num: u8, val: u8 },
    /// The 14-bit bend centred on 8192; divided by 8192 it lies in `[-1, 1)`.
    PitchBend { channel: u8, value: i32 },
    /// Nothing: a note shed under load, or moved out of range by the transpose.
    Skip,
}

/// The producer's handling of `ev` when the ring holds `write_pos - read_pos`
/// frames: note events are transposed (and dropped when that leaves
/// `0..=255`), then shed when their velocity is under the load threshold or
/// under 15; control changes and pitch bends always pass.
pub open spec fn synth_action_spec(ev: MIDIEvent, write_pos: int, read_pos: int, transpose: int) -> SynthAction {
    let ch = ev.data@[0];
    let a = ev.data@[1];
    let b = ev.data@[2];
    match ev.command {
        MIDIEventType::ControlEvent => SynthAction::Control { channel: ch, num: a, val: b },
        MIDIEventType::PitchBend => SynthAction::PitchBend { channel: ch, value: ((b % 128) * 128 + (a % 128) - 8192) as i32 },
        _ => if !(0 <= a + transpose <= 255) {
            SynthAction::Skip
        } else if !(b >= skip_threshold(write_pos, read_pos) && b >= 15) {
            SynthAction::Skip
        } else if ev.command == MIDIEventType::NoteOn {
            SynthAction::NoteOn { channel: ch, key: (a + transpose) as u8, vel: b }
        } else {
            SynthAction::NoteOff { channel: ch, key: (a + transpose) as u8 }
        },
    }
}

/// Decides what to send to the synthesizer for `ev`; see `synth_action_spec`.
pub fn synth_action(ev: &MIDIEvent, write_pos: usize, read_pos: usize, transpose: i32) -> (r: SynthAction)
    ensures
        r == synth_action_spec(*ev, write_pos as int, read_pos as int, transpose as int),
{
    let ch = ev.data[0];
    let a = ev.data[1];
    let b = ev.data[2];
    match ev.command {
        MIDIEventType::ControlEvent => SynthAction::Control { channel: ch, num: a, val: b },
        MIDIEventType::PitchBend => SynthAction::PitchBend { channel: ch, value: pitch_bend_value(a, b) },
        MIDIEventType::NoteOn | MIDIEventType::NoteOff => {
            let key = match transpose_key(a, transpose) {
                Some(k) => k,
                None => return SynthAction::Skip,
            };
            if !note_passes(b, get_skipping_velocity(write_pos, read_pos)) {
                return SynthAction::Skip;
            }
            if ev.command == MIDIEventType::NoteOn {
                SynthAction::NoteOn { channel: ch, key, vel: b }
            } else {
                SynthAction::NoteOff { channel: ch, key }
            }
        },
    }
}

/// Where the producer places an event in the session.
#[derive(PartialEq, Eq, Structural, Clone, Copy, Debug)]
pub enum EventTarget {
    /// A note event before the session's start: left out.
    Skip,
    /// Send once the ring has been written up to this frame.
    At(u128),
}

/// Where `ev` falls in a session started at `start_us`: notes before the
/// start are skipped; other events before it are sent at once (frame 0);
/// otherwise at the frame of `event_frame_spec`.
pub open spec fn event_target_spec(ev: MIDIEvent, speed_permille: int, audio_fps: int, start_us: int, sample_rate: int) -> EventTarget {
    match event_frame_spec(ev.time as int, speed_permille, audio_fps, start_us, sample_rate) {
        None => if ev.command == MIDIEventType::NoteOn || ev.command == MIDIEventType::NoteOff {
            EventTarget::Skip
        } else {
            EventTarget::At(0)
        },
        Some(f) => EventTarget::At(f as u128),
    }
}

/// Places `ev` in the session; see `event_target_spec`.
pub fn event_target(ev: &MIDIEvent, speed_permille: u32, audio_fps: u32, start_us: i64, sample_rate: u32) -> (r: EventTarget)
    requires
        speed_permille > 0,
    ensures
        r == event_target_spec(*ev, speed_permille as int, audio_fps as int, start_us as int, sample_rate as int),
{
    match event_target_frame(ev.time, speed_permille, audio_fps, start_us, sample_rate) {
        None => match ev.command {
            MIDIEventType::NoteOn | MIDIEventType::NoteOff => EventTarget::Skip,
            _ => EventTarget::At(0),
        },
        Some(f) => EventTarget::At(f),
    }
}

/// `a / b` rounded down, for a positive `b`.
fn floor_div(a: i128, b: i128) -> (r: i128)
    requires
        b > 0,
        -0x1_0000_0000_0000_0000_0000_0000 < a < 0x1_0000_0000_0000_0000_0000_0000,
        b < 0x1_0000_0000_0000_0000,
    ensures
        r == a / b,
{
    if a >= 0 {
        a / b
    } else {
        let q: i128 = (-a + b - 1) / b;
        proof {
            let na = -a;
            vstd::arithmetic::div_mod::lemma_fundamental_div_mod(a as int, b as int);
            vstd::arithmetic::div_mod::lemma_fundamental_div_mod(na + b - 1, b as int);
            let fq = a as int / b as int;
            let m = a as int % b as int;
            assert(0 <= m < b);
            assert((na + b - 1) / b as int == -fq) by {
                vstd::arithmetic::div_mod::lemma_div_multiples_vanish_fancy(-fq, b - 1 - m, b as int);
                assert(na + b - 1 == b * (-fq) + (b - 1 - m)) by (nonlinear_arith)
                    requires a == b * fq + m, na == -a;
            }
        }
        -q
    }
}

/// A time in microseconds at playback speed `speed_permille` (1000 is normal
/// speed): the time divided by the speed, rounded down.
pub open spec fn scaled_time(time_us: int, speed_permille: int) -> int {
    time_us * 1000 / speed_permille
}

pub open spec fn clamp_i64(x: int) -> i64 {
    if x > i64::MAX { i64::MAX } else if x < i64::MIN { i64::MIN } else { x as i64 }
}

/// A song time divided by the playback speed (in thousandths), rounded down.
pub fn scale_time(time_us: i64, speed_permille: u32) -> (r: i64)
    requires
        speed_permille > 0,
    ensures
        r == clamp_i64(scaled_time(time_us as int, speed_permille as int)),
{
    let q = floor_div(time_us as i128 * 1000, speed_permille as i128);
    if q > i64::MAX as i128 {
        i64::MAX
    } else if q < i64::MIN as i128 {
        i64::MIN
    } else {
        q as i64
    }
}

/// `t` snapped down to a whole frame of `fps` frames per second; unchanged when `fps` is 0.
pub open spec fn quantized(t: int, fps: int) -> int {
    if fps > 0 { (t * fps / 1_000_000) * 1_000_000 / fps } else { t }
}

/// Where an event at `time_us` falls in a session that started at `start_us`
/// (already divided by the speed): `None` when the scaled time lies before the
/// start; else the frame of the quantized, scaled time (never below 0).
pub open spec fn event_frame_spec(time_us: int, speed_permille: int, audio_fps: int, start_us: int, sample_rate: int) -> Option<int> {
    let t = scaled_time(time_us, speed_permille);
    if t < start_us {
        None
    } else {
        let off = quantized(t, audio_fps) - start_us;
        Some(if off <= 0 { 0 } else { off * sample_rate / 1_000_000 })
    }
}

/// The frame at which the producer must have written up to before sending
/// an event at `time_us`; see `event_frame_spec`.
pub fn event_target_frame(time_us: u64, speed_permille: u32, audio_fps: u32, start_us: i64, sample_rate: u32) -> (r: Option<u128>)
    requires
        speed_permille > 0,
    ensures
        match event_frame_spec(time_us as int, speed_permille as int, audio_fps as int, start_us as int, sample_rate as int) {
            None => r is None,
            Some(f) => r == Some(f as u128),
        },
{
    let t: u128 = time_us as u128 * 1000 / speed_permille as u128;
    assert(t <= time_us * 1000) by {
        vstd::arithmetic::div_mod::lemma_div_is_ordered_by_denominator(time_us * 1000, 1, speed_permille as int);
    }
    if (t as i128) < start_us as i128 {
        return None;
    }
    let q: u128 = if audio_fps > 0 {
        assert(t * audio_fps <= 0x1_0000_0000_0000_0000 * 1000 * 0x1_0000_0000) by (nonlinear_arith)
            requires t <= 0x1_0000_0000_0000_0000 * 1000, audio_fps <= 0xFFFF_FFFF;
        let frames: u128 = t * audio_fps as u128 / 1_000_000;
        assert(frames * 1_000_000 <= t * audio_fps) by {
            vstd::arithmetic::div_mod::lemma_fundamental_div_mod((t * audio_fps) as int, 1_000_000);
        }
        proof {
            vstd::arithmetic::div_mod::lemma_div_is_ordered((frames * 1_000_000) as int, (t * audio_fps) as int, audio_fps as int);
            vstd::arithmetic::div_mod::lemma_div_multiples_vanish(t as int, audio_fps as int);
            assert(t * audio_fps == audio_fps * t) by (nonlinear_arith);
        }
        frames * 1_000_000 / audio_fps as u128
    } else {
        t
    };
    assert(q <= t);
    let off: i128 = q as i128 - start_us as i128;
    if off <= 0 {
        Some(0)
    } else {
        assert(off * sample_rate <= 0x1_0000_0000_0000_0000_0000 * 0x1_0000_0000) by (nonlinear_arith)
            requires off <= 0x1_0000_0000_0000_0000_0000, sample_rate <= 0xFFFF_FFFF;
        Some(off as u128 * sample_rate as u128 / 1_000_000)
    }
}

proof fn lemma_slots_differ(w: int, g: int, f: int, n: int)
    requires
        0 <= g < f < n,
        0 <= w,
    ensures
        (w + g) % n != (w + f) % n,
{
    vstd::arithmetic::div_mod::lemma_fundamental_div_mod(w + g, n);
    vstd::arithmetic::div_mod::lemma_fundamental_div_mod(w + f, n);
    if (w + g) % n == (w + f) % n {
        let a = (w + g) / n;
        let b = (w + f) / n;
        assert(f - g == (b - a) * n) by (nonlinear_arith)
            requires w + g == n * a + (w + g) % n, w + f == n * b + (w + f) % n, (w + g) % n == (w + f) % n;
        assert(false) by (nonlinear_arith)
            requires f - g == (b - a) * n, 0 < f - g < n;
    }
}

proof fn lemma_dist_of_slot(w: int, f: int, n: int)
    requires
        0 <= w,
        0 <= f < n,
    ensures
        ring_dist((w + f) % n, w, n) == f,
{
    vstd::arithmetic::div_mod::lemma_fundamental_div_mod(w + f, n);
    vstd::arithmetic::div_mod::lemma_fundamental_div_mod(w, n);
    let p = (w + f) % n;
    assert((p - w) % n == f) by {
        vstd::arithmetic::div_mod::lemma_mod_sub_multiples_vanish(f, n);
        assert(p - w == f - n * ((w + f) / n)) by (nonlinear_arith)
            requires w + f == n * ((w + f) / n) + p;
        vstd::arithmetic::div_mod::lemma_mod_multiples_vanish(-((w + f) / n), f, n);
        vstd::arithmetic::div_mod::lemma_small_mod(f as nat, n as nat);
        assert(f - n * ((w + f) / n) == n * (-((w + f) / n)) + f) by (nonlinear_arith);
    }
}

} // verus!

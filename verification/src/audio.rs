use vstd::prelude::*;

verus! {

/// The oscillator shapes of the synthesizer.
#[derive(Debug, Clone, Copy, PartialEq, Eq, Structural)]
pub enum Waveform {
    Sine,
    Square,
    Triangle,
    Sawtooth,
}

/// The shape that a waveform code selects: 0 sine, 1 square, 2 triangle,
/// anything else sawtooth.
pub open spec fn waveform_of(code: u8) -> Waveform {
    if code == 0 {
        Waveform::Sine
    } else if code == 1 {
        Waveform::Square
    } else if code == 2 {
        Waveform::Triangle
    } else {
        Waveform::Sawtooth
    }
}

/// Decodes the waveform code carried by a play command.
pub fn waveform_from_code(code: u8) -> (w: Waveform)
    ensures
        w == waveform_of(code),
{
    match code {
        0 => Waveform::Sine,
        1 => Waveform::Square,
        2 => Waveform::Triangle,
        _ => Waveform::Sawtooth,
    }
}

/// The hardware channel that an optional channel argument selects: none or
/// a negative one picks channel 0, any other is taken modulo the 4 channels.
pub open spec fn channel_of(arg: Option<i32>) -> int {
    match arg {
        Some(c) => if c < 0 { 0 } else { c as int % 4 },
        None => 0,
    }
}

/// Picks the channel for a sound request.
pub fn sfx_channel(arg: Option<i32>) -> (ch: usize)
    ensures
        ch == channel_of(arg),
        ch < 4,
{
    match arg {
        Some(c) => if c < 0 {
            0
        } else {
            let u = c as usize;
            assert(u & 3 == u % 4) by (bit_vector);
            u & 3
        },
        None => 0,
    }
}

/// The test waveform code of a channel: its number modulo 4
/// (0 sine, 1 square, 2 triangle, 3 sawtooth).
pub fn channel_waveform(channel: usize) -> (code: u8)
    ensures
        code == channel % 4,
{
    ((channel % 4) as u8)
}

/// Length in milliseconds of a plain sound effect: the given length, taken
/// as unsigned, or 150 when none is given.
pub fn sfx_duration(length: Option<i32>) -> (ms: u32)
    ensures
        ms == (match length {
            Some(l) => l as u32,
            None => 150u32,
        }),
{
    match length {
        Some(l) => l as u32,
        None => 150,
    }
}

/// Length in milliseconds of an arpeggio: the given length, or 300 when
/// none is given.
pub fn arpeggio_duration(length: Option<u32>) -> (ms: u32)
    ensures
        ms == (match length {
            Some(l) => l,
            None => 300u32,
        }),
{
    match length {
        Some(l) => l,
        None => 300,
    }
}

/// The timing state of one mixer channel: whether it sounds, how many
/// samples it has left, and where its arpeggio stands. The notes themselves
/// are held by the caller; `note_count` says how many there are.
pub struct ChannelClock {
    pub active: bool,
    pub remaining_samples: u32,
    pub note_count: usize,
    pub current_note_idx: usize,
    pub samples_per_tick: u32,
    pub tick_counter: u32,
}

impl ChannelClock {
    /// The arpeggio position is a note of the list, and the tick counter
    /// has not run past a tick.
    pub open spec fn wf(&self) -> bool {
        &&& self.note_count == 0 || self.current_note_idx < self.note_count
        &&& self.tick_counter == 0 || self.tick_counter < self.samples_per_tick
    }

    /// The clock after one output sample, and the note the channel moved
    /// to, if it moved.
    pub open spec fn stepped(self) -> (ChannelClock, Option<usize>) {
        if !self.active {
            (self, None)
        } else {
            let arp = self.note_count > 1;
            let t = if arp { self.tick_counter + 1 } else { self.tick_counter as int };
            let advance = arp && t >= self.samples_per_tick;
            let idx = if advance { (self.current_note_idx + 1) % (self.note_count as int) } else { self.current_note_idx as int };
            let rem = if self.remaining_samples > 0 { self.remaining_samples - 1 } else { 0 };
            let next = ChannelClock {
                tick_counter: (if advance { 0 } else { t }) as u32,
                current_note_idx: idx as usize,
                remaining_samples: rem as u32,
                active: !(self.remaining_samples > 0 && rem == 0),
                ..self
            };
            (next, if advance { Some(idx as usize) } else { None })
        }
    }

    /// A silent channel that advances its arpeggio every `samples_per_tick`
    /// samples.
    pub fn new(samples_per_tick: u32) -> (c: Self)
        ensures
            c.wf(),
            !c.active,
            c.remaining_samples == 0,
            c.note_count == 0,
            c.current_note_idx == 0,
            c.samples_per_tick == samples_per_tick,
            c.tick_counter == 0,
    {
        ChannelClock {
            active: false,
            remaining_samples: 0,
            note_count: 0,
            current_note_idx: 0,
            samples_per_tick,
            tick_counter: 0,
        }
    }

    /// Starts a sound of `samples` samples over `note_count` notes, from
    /// the first note.
    pub fn play(&mut self, samples: u32, note_count: usize)
        ensures
            final(self).wf(),
            final(self).active,
            final(self).remaining_samples == samples,
            final(self).note_count == note_count,
            final(self).current_note_idx == 0,
            final(self).tick_counter == 0,
            final(self).samples_per_tick == old(self).samples_per_tick,
    {
        self.active = true;
        self.remaining_samples = samples;
        self.note_count = note_count;
        self.current_note_idx = 0;
        self.tick_counter = 0;
    }

    /// Advances the channel by one output sample: an arpeggio of two or
    /// more notes moves to the next note (cyclically) every
    /// `samples_per_tick` samples, and the remaining length counts down, the
    /// channel falling silent when it reaches zero. A silent channel stays
    /// as it is. Returns the note moved to, if any.
    pub fn step(&mut self) -> (moved: Option<usize>)
        requires
            old(self).wf(),
        ensures
            final(self).wf(),
            (*final(self), moved) == old(self).stepped(),
    {
        if !self.active {
            return None;
        }
        let mut moved: Option<usize> = None;
        if self.note_count > 1 {
            self.tick_counter = self.tick_counter + 1;
            if self.tick_counter >= self.samples_per_tick {
                self.tick_counter = 0;
                self.current_note_idx = (self.current_note_idx + 1) % self.note_count;
                moved = Some(self.current_note_idx);
            }
        }
        if self.remaining_samples > 0 {
            self.remaining_samples = self.remaining_samples - 1;
            if self.remaining_samples == 0 {
                self.active = false;
            }
        }
        moved
    }
}

/// The clock after `k` output samples.
pub open spec fn run(c: ChannelClock, k: nat) -> ChannelClock
    decreases k,
{
    if k == 0 {
        c
    } else {
        run(c.stepped().0, (k - 1) as nat)
    }
}

/// A sound started with `n > 0` samples sounds for exactly `n` samples:
/// after `k <= n` steps it has `n - k` left, and it is silent from the
/// `n`-th on.
pub proof fn lemma_sound_length(c: ChannelClock, k: nat)
    requires
        c.active,
        c.remaining_samples > 0,
        k <= c.remaining_samples,
    ensures
        run(c, k).remaining_samples == c.remaining_samples - k,
        run(c, k).active == (k < c.remaining_samples),
    decreases k,
{
    if k > 0 {
        let next = c.stepped().0;
        if c.remaining_samples > 1 {
            lemma_sound_length(next, (k - 1) as nat);
        }
    }
}

/// Between two arpeggio moves the clock only counts: `j` steps that stay
/// short of a tick add `j` to the tick counter and leave the note alone.
proof fn lemma_ticks(c: ChannelClock, j: nat)
    requires
        c.active,
        c.note_count > 1,
        c.tick_counter + j < c.samples_per_tick,
        c.remaining_samples == 0 || c.remaining_samples > j,
    ensures
        run(c, j).active,
        run(c, j).tick_counter == c.tick_counter + j,
        run(c, j).current_note_idx == c.current_note_idx,
        run(c, j).note_count == c.note_count,
        run(c, j).samples_per_tick == c.samples_per_tick,
        run(c, j).remaining_samples == if c.remaining_samples == 0 { 0 } else { c.remaining_samples - j },
    decreases j,
{
    if j > 0 {
        lemma_ticks(c.stepped().0, (j - 1) as nat);
    }
}

/// The arpeggio is sample-accurate: from the start of a tick, a sounding
/// channel of two or more notes moves to the next note (cyclically) after
/// exactly `samples_per_tick` samples, and starts the next tick.
pub proof fn lemma_arpeggio_tick(c: ChannelClock)
    requires
        c.active,
        c.note_count > 1,
        c.samples_per_tick > 0,
        c.tick_counter == 0,
        c.remaining_samples == 0 || c.remaining_samples >= c.samples_per_tick,
    ensures
        run(c, c.samples_per_tick as nat).current_note_idx == (c.current_note_idx + 1) % (c.note_count as int),
        run(c, c.samples_per_tick as nat).tick_counter == 0,
{
    let t = c.samples_per_tick as nat;
    lemma_ticks(c, (t - 1) as nat);
    let mid = run(c, (t - 1) as nat);
    lemma_run_split(c, (t - 1) as nat);
    assert(run(mid, 1) == run(mid.stepped().0, 0));
    let idx = (mid.current_note_idx + 1) % (mid.note_count as int);
    assert(0 <= idx < mid.note_count);
    assert(mid.stepped().0.current_note_idx == idx);
}

/// Running `k + 1` steps is running `k` steps and then one more.
proof fn lemma_run_split(c: ChannelClock, k: nat)
    ensures
        run(c, k + 1) == run(run(c, k), 1),
    decreases k,
{
    if k > 0 {
        lemma_run_split(c.stepped().0, (k - 1) as nat);
    }
}

} // verus!

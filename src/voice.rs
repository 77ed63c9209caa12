//! Timing of a voice: which note each output sample belongs to, when a new note starts,
//! and when the voice has ended. The waveform itself is computed around this clock.

use crate::error::GenerateSamplesError;
use vstd::prelude::*;

verus! {

/// What one step of a voice clock gives.
#[derive(Debug, Copy, Clone, PartialEq, Eq, Structural)]
pub enum Tick {
    /// One more sample of note `note`; `started` on its first sample; `elapsed` counts the
    /// samples of the note so far, this one included.
    Sample { note: usize, started: bool, elapsed: u64 },
    /// The voice has ended, and stays ended.
    End,
}

/// Samples that notes `from..` of `counts` take, in all.
pub open spec fn span_from(counts: Seq<u64>, from: int) -> nat
    decreases counts.len() - from,
{
    if from < 0 || from >= counts.len() {
        0
    } else {
        counts[from] as nat + span_from(counts, from + 1)
    }
}

/// Samples a voice whose notes last `counts` samples yields before it ends.
pub open spec fn total_span(counts: Seq<u64>) -> nat {
    span_from(counts, 0)
}

/// The first note from `from` on that lasts at least one sample; `counts.len()` if none
/// does.
pub open spec fn next_sounding(counts: Seq<u64>, from: int) -> int
    decreases counts.len() - from,
{
    if from < 0 || from >= counts.len() {
        counts.len() as int
    } else if counts[from] > 0 {
        from
    } else {
        next_sounding(counts, from + 1)
    }
}

/// Notes of no samples add nothing: the span from `from` is the span from the next note
/// that sounds, and it is zero when none does.
proof fn lemma_skip_silent(counts: Seq<u64>, from: int)
    requires
        0 <= from <= counts.len(),
    ensures
        from <= next_sounding(counts, from) <= counts.len(),
        span_from(counts, from) == span_from(counts, next_sounding(counts, from)),
        next_sounding(counts, from) < counts.len() ==> counts[next_sounding(counts, from)] > 0,
    decreases counts.len() - from,
{
    if from < counts.len() && counts[from] == 0 {
        lemma_skip_silent(counts, from + 1);
    }
}

/// Ticks that notes `from..` last, in all.
pub open spec fn ticks_from(lengths: Seq<u8>, from: int) -> nat
    decreases lengths.len() - from,
{
    if from < 0 || from >= lengths.len() {
        0
    } else {
        lengths[from] as nat + ticks_from(lengths, from + 1)
    }
}

/// A voice whose notes each last `per_tick` samples per tick yields exactly `per_tick`
/// samples for each tick of its notes.
pub proof fn lemma_voice_span(counts: Seq<u64>, lengths: Seq<u8>, per_tick: nat)
    requires
        counts.len() == lengths.len(),
        forall|i: int| 0 <= i < counts.len() ==> counts[i] == per_tick * lengths[i],
    ensures
        total_span(counts) == per_tick * ticks_from(lengths, 0),
{
    lemma_span_from(counts, lengths, per_tick, 0);
}

proof fn lemma_span_from(counts: Seq<u64>, lengths: Seq<u8>, per_tick: nat, from: int)
    requires
        0 <= from <= counts.len(),
        counts.len() == lengths.len(),
        forall|i: int| 0 <= i < counts.len() ==> counts[i] == per_tick * lengths[i],
    ensures
        span_from(counts, from) == per_tick * ticks_from(lengths, from),
    decreases counts.len() - from,
{
    if from < counts.len() {
        lemma_span_from(counts, lengths, per_tick, from + 1);
        assert(per_tick * ticks_from(lengths, from) == per_tick * lengths[from] + per_tick
            * ticks_from(lengths, from + 1)) by (nonlinear_arith)
            requires
                ticks_from(lengths, from) == lengths[from] as nat + ticks_from(lengths, from + 1),
        ;
    } else {
        assert(per_tick * ticks_from(lengths, from) == 0) by (nonlinear_arith)
            requires
                ticks_from(lengths, from) == 0,
        ;
    }
}

/// Per-voice clock over the sample counts of its notes. A note of no samples yields
/// nothing: the clock moves straight on to the next one.
#[derive(Debug, Clone)]
pub struct NoteClock {
    counts: Vec<u64>,
    next_note: usize,
    note_samples: u64,
    note_current_sample: u64,
    done: bool,
}

impl NoteClock {
    /// The sample counts of the notes.
    pub closed spec fn counts(&self) -> Seq<u64> {
        self.counts@
    }

    pub closed spec fn wf(&self) -> bool {
        &&& self.counts@.len() > 0
        &&& self.next_note <= self.counts@.len()
        &&& self.next_note > 0 ==> self.note_samples == self.counts@[self.next_note - 1]
        &&& self.next_note == 0 ==> self.note_samples == 0
        &&& self.note_current_sample <= self.note_samples
    }

    /// Index of the note the last sample belonged to (-1 before the first).
    pub closed spec fn current_note(&self) -> int {
        self.next_note - 1
    }

    /// Index of the first note not yet begun.
    pub closed spec fn upcoming(&self) -> int {
        self.next_note as int
    }

    /// Samples of the current note given so far.
    pub closed spec fn elapsed(&self) -> int {
        self.note_current_sample as int
    }

    /// Whether the next sample still belongs to the current note.
    pub closed spec fn in_note(&self) -> bool {
        !self.done && self.note_current_sample < self.note_samples
    }

    /// How many more samples the clock yields before it ends.
    pub closed spec fn remaining(&self) -> nat {
        if self.done {
            0
        } else {
            (self.note_samples - self.note_current_sample) as nat + span_from(
                self.counts@,
                self.next_note as int,
            )
        }
    }

    /// What the next call of `tick` gives: the next sample of the current note, else the
    /// first sample of the next note that sounds, else `End`.
    pub open spec fn next_tick(&self) -> Tick {
        if self.remaining() == 0 {
            Tick::End
        } else if self.in_note() {
            Tick::Sample {
                note: self.current_note() as usize,
                started: false,
                elapsed: (self.elapsed() + 1) as u64,
            }
        } else {
            Tick::Sample {
                note: next_sounding(self.counts(), self.upcoming()) as usize,
                started: true,
                elapsed: 1,
            }
        }
    }

    /// A clock for a voice whose notes last `counts` samples each; a voice must have a
    /// note.
    pub fn new(counts: Vec<u64>) -> (r: Result<NoteClock, GenerateSamplesError>)
        ensures
            counts@.len() == 0 <==> r is Err,
            r is Err ==> r->Err_0 == GenerateSamplesError::EmptyVoice,
            r is Ok ==> r->Ok_0.wf() && r->Ok_0.counts() == counts@ && r->Ok_0.remaining()
                == total_span(counts@),
            r is Ok ==> r->Ok_0.current_note() == -1 && r->Ok_0.upcoming() == 0
                && !r->Ok_0.in_note(),
    {
        if counts.len() == 0 {
            return Err(GenerateSamplesError::EmptyVoice);
        }
        Ok(NoteClock { counts, next_note: 0, note_samples: 0, note_current_sample: 0, done: false })
    }

    /// Advance by one sample.
    pub fn tick(&mut self) -> (r: Tick)
        requires
            old(self).wf(),
        ensures
            final(self).wf(),
            final(self).counts() == old(self).counts(),
            r == old(self).next_tick(),
            old(self).remaining() == 0 ==> final(self).remaining() == 0,
            old(self).remaining() > 0 ==> final(self).remaining() == old(self).remaining() - 1,
            r matches Tick::Sample { note, elapsed, .. } ==> note < old(self).counts().len()
                && final(self).current_note() == note && final(self).elapsed() == elapsed,
    {
        if self.done {
            return Tick::End;
        }
        if self.note_current_sample < self.note_samples {
            self.note_current_sample = self.note_current_sample + 1;
            return Tick::Sample {
                note: self.next_note - 1,
                started: false,
                elapsed: self.note_current_sample,
            };
        }
        let n = self.counts.len();
        let mut k = self.next_note;
        proof {
            lemma_skip_silent(self.counts@, k as int);
        }
        while k < n && self.counts[k] == 0
            invariant
                self.next_note <= k <= n,
                n == self.counts@.len(),
                next_sounding(self.counts@, self.next_note as int) == next_sounding(
                    self.counts@,
                    k as int,
                ),
            decreases n - k,
        {
            k = k + 1;
        }
        proof {
            lemma_skip_silent(self.counts@, k as int);
        }
        if k == n {
            self.done = true;
            return Tick::End;
        }
        self.note_samples = self.counts[k];
        self.next_note = k + 1;
        self.note_current_sample = 1;
        Tick::Sample { note: k, started: true, elapsed: 1 }
    }
}

/// The larger of two numbers.
pub open spec fn larger(a: nat, b: nat) -> nat {
    if a >= b {
        a
    } else {
        b
    }
}

/// The most samples any of `clocks` has left.
pub open spec fn most_remaining(clocks: Seq<NoteClock>) -> nat
    decreases clocks.len(),
{
    if clocks.len() == 0 {
        0
    } else {
        larger(most_remaining(clocks.drop_last()), clocks.last().remaining())
    }
}

/// `after` is `before` advanced by one sample, which gave `tick`.
pub open spec fn advanced(before: NoteClock, after: NoteClock, tick: Tick) -> bool {
    &&& after.wf()
    &&& after.counts() == before.counts()
    &&& tick == before.next_tick()
    &&& (tick matches Tick::Sample { note, elapsed, .. } ==> after.current_note() == note
        && after.elapsed() == elapsed)
    &&& before.remaining() == 0 ==> after.remaining() == 0 && tick == Tick::End
    &&& before.remaining() > 0 ==> after.remaining() == before.remaining() - 1 && tick != Tick::End
}

/// The clocks of all voices of a song, advanced together. The song lasts as long as its
/// longest voice.
#[derive(Debug, Clone)]
pub struct SongClock {
    clocks: Vec<NoteClock>,
}

impl SongClock {
    /// The clocks of the voices, in order.
    pub closed spec fn voices(&self) -> Seq<NoteClock> {
        self.clocks@
    }

    pub open spec fn wf(&self) -> bool {
        forall|i: int| 0 <= i < self.voices().len() ==> (#[trigger] self.voices()[i]).wf()
    }

    /// How many more samples the song yields before it ends.
    pub open spec fn remaining(&self) -> nat {
        most_remaining(self.voices())
    }

    pub fn new(clocks: Vec<NoteClock>) -> (r: SongClock)
        requires
            forall|i: int| 0 <= i < clocks@.len() ==> (#[trigger] clocks@[i]).wf(),
        ensures
            r.voices() == clocks@,
            r.wf(),
    {
        SongClock { clocks }
    }

    /// Advance every voice by one sample. `None` once every voice has ended; else one
    /// tick for each voice, `End` for those that have ended.
    pub fn tick(&mut self) -> (r: Option<Vec<Tick>>)
        requires
            old(self).wf(),
        ensures
            final(self).wf(),
            final(self).voices().len() == old(self).voices().len(),
            r is None <==> old(self).remaining() == 0,
            r is None ==> final(self).remaining() == 0,
            r is Some ==> final(self).remaining() == old(self).remaining() - 1,
            r is Some ==> r->Some_0@.len() == old(self).voices().len(),
            forall|i: int|
                0 <= i < old(self).voices().len() ==> advanced(
                    #[trigger] old(self).voices()[i],
                    final(self).voices()[i],
                    match r {
                        Some(ticks) => ticks@[i],
                        None => Tick::End,
                    },
                ),
    {
        let n = self.clocks.len();
        let ghost old_clocks = self.clocks@;
        let mut ticks: Vec<Tick> = Vec::new();
        let mut clocks: Vec<NoteClock> = Vec::new();
        let mut any = false;
        let mut i: usize = 0;
        while i < n
            invariant
                i <= n,
                n == old_clocks.len(),
                self.clocks@.len() == n - i,
                forall|k: int| 0 <= k < n - i ==> self.clocks@[k] == old_clocks[k + i],
                forall|k: int| 0 <= k < n ==> (#[trigger] old_clocks[k]).wf(),
                clocks@.len() == i,
                ticks@.len() == i,
                any <==> exists|k: int| 0 <= k < i && (#[trigger] old_clocks[k]).remaining() > 0,
                most_remaining(clocks@) == if any {
                    most_remaining(old_clocks.take(i as int)) - 1
                } else {
                    0
                },
                most_remaining(old_clocks.take(i as int)) == 0 <==> !any,
                forall|k: int|
                    0 <= k < i ==> advanced(#[trigger] old_clocks[k], clocks@[k], ticks@[k]),
            decreases n - i,
        {
            let mut clock = self.clocks.remove(0);
            let ghost before_tick = clock;
            assert(before_tick == old_clocks[i as int]);
            let tick = clock.tick();
            proof {
                let taken = old_clocks.take(i as int);
                let more = old_clocks.take(i + 1);
                assert(more.drop_last() =~= taken);
                assert(clocks@.push(clock).drop_last() =~= clocks@);
            }
            if tick != Tick::End {
                any = true;
            }
            let ghost prev_clocks = clocks@;
            let ghost prev_ticks = ticks@;
            clocks.push(clock);
            ticks.push(tick);
            proof {
                assert forall|k: int| 0 <= k < i + 1 implies advanced(
                    #[trigger] old_clocks[k],
                    clocks@[k],
                    ticks@[k],
                ) by {
                    if k < i {
                        assert(clocks@[k] == prev_clocks[k]);
                        assert(ticks@[k] == prev_ticks[k]);
                    } else {
                        assert(old_clocks[k] == before_tick);
                    }
                }
            }
            i = i + 1;
        }
        proof {
            assert(old_clocks.take(n as int) =~= old_clocks);
            assert forall|k: int| 0 <= k < n implies (#[trigger] clocks@[k]).wf() by {
                assert(old_clocks[k].wf());
            }
        }
        self.clocks = clocks;
        if any {
            Some(ticks)
        } else {
            None
        }
    }
}

} // verus!

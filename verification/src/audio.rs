use vstd::prelude::*;

verus! {

/// The error an audio operation reports.
#[derive(Debug)]
pub struct AudioError {}

/// A named group of sounds played in turn, such as the footsteps on one material.
pub struct SoundSeries {
    pub sounds: Vec<String>,
    pub index: usize,
}

impl SoundSeries {
    /// A series that starts at its first sound.
    pub fn new(ids: Vec<String>) -> (s: Self)
        ensures
            s.sounds@ == ids@,
            s.index == 0,
    {
        Self { sounds: ids, index: 0 }
    }

    /// Moves on to the next sound, back to the first after the last.
    pub fn increment(&mut self)
        requires
            old(self).sounds@.len() > 0,
            old(self).index < usize::MAX,
        ensures
            final(self).sounds@ == old(self).sounds@,
            final(self).index == (old(self).index + 1) % (old(self).sounds@.len() as int),
    {
        self.index = (self.index + 1) % self.sounds.len();
    }

    /// The name of the sound to play now, the series moving on to the next one
    /// (the choice `play_next_in_series` makes before it plays).
    pub fn next_sound_name(&mut self) -> (name: String)
        requires
            old(self).index < old(self).sounds@.len(),
        ensures
            name@ == old(self).sounds@[old(self).index as int]@,
            final(self).sounds@ == old(self).sounds@,
            final(self).index == (old(self).index + 1) % (old(self).sounds@.len() as int),
    {
        let len = self.sounds.len();
        let ret = self.sounds[self.index].clone();
        if self.index < len {
            self.increment();
        }
        ret
    }
}

/// Advancing a series `n` times from a valid position lands `n` places further
/// round the circle of its sounds: after as many steps as it has sounds, it is
/// back where it started.
pub proof fn law_series_cycles(len: int, start: int, n: nat)
    requires
        len > 0,
        0 <= start < len,
    ensures
        0 <= series_after(start, len, n) < len,
        series_after(start, len, n) == (start + n) % len,
        series_after(start, len, len as nat) == start,
{
    lemma_series_after(len, start, n);
    lemma_series_after(len, start, len as nat);
    assert((start + len) % len == start) by (nonlinear_arith)
        requires
            0 <= start < len,
    ;
}

/// The index after `n` increments starting from `start` in a series of `len` sounds.
pub open spec fn series_after(start: int, len: int, n: nat) -> int
    decreases n,
{
    if n == 0 {
        start
    } else {
        (series_after(start, len, (n - 1) as nat) + 1) % len
    }
}

proof fn lemma_series_after(len: int, start: int, n: nat)
    requires
        len > 0,
        0 <= start < len,
    ensures
        series_after(start, len, n) == (start + n) % len,
    decreases n,
{
    if n == 0 {
        assert(start % len == start) by (nonlinear_arith)
            requires
                0 <= start < len,
        ;
    } else {
        lemma_series_after(len, start, (n - 1) as nat);
        let a = start + n - 1;
        assert(((a % len) + 1) % len == (a + 1) % len) by (nonlinear_arith)
            requires
                len > 0,
                a >= 0,
        ;
    }
}

} // verus!

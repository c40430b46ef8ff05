//! What the engine does to one row of samples at a time.

use vstd::prelude::*;

use crate::engine::plan::{
    fade_by, fade_is, fade_step, faded_is, faded_run, minus_own, mix_minus_by, scaled_by, silent, FadeSteps,
};
use crate::sample::{
    difference_is, lemma_peak_start, lemma_peak_step, peak_is, product_is, sum_is, whole_is, Sample,
};

verus! {

/// Scales a row by one gain.
pub fn scale_row<S: Sample>(src: &[S], g: S, dst: &mut [S])
    requires
        src@.len() == old(dst)@.len(),
    ensures
        scaled_by(src@, g, final(dst)@),
{
    let mut i: usize = 0;
    while i < src.len()
        invariant
            i <= src@.len(),
            dst@.len() == src@.len(),
            forall|j: int| 0 <= j < i ==> product_is(src@[j], g, #[trigger] dst@[j]),
        decreases src@.len() - i,
    {
        dst[i] = src[i].times(g);
        i += 1;
    }
}

/// Copies a row.
pub fn copy_row<S: Sample>(src: &[S], dst: &mut [S])
    requires
        src@.len() == old(dst)@.len(),
    ensures
        final(dst)@ == src@,
{
    let mut i: usize = 0;
    while i < src.len()
        invariant
            i <= src@.len(),
            dst@.len() == src@.len(),
            forall|j: int| 0 <= j < i ==> src@[j] == #[trigger] dst@[j],
        decreases src@.len() - i,
    {
        dst[i] = src[i];
        i += 1;
    }
    assert(dst@ =~= src@);
}

/// Fills a row with silence.
pub fn silence_row<S: Sample>(dst: &mut [S])
    ensures
        final(dst)@.len() == old(dst)@.len(),
        silent(final(dst)@),
{
    let mut i: usize = 0;
    while i < dst.len()
        invariant
            i <= dst@.len(),
            dst@.len() == old(dst)@.len(),
            forall|j: int| 0 <= j < i ==> whole_is(0, #[trigger] dst@[j]),
        decreases dst@.len() - i,
    {
        dst[i] = S::whole(0);
        i += 1;
    }
}

/// The peak magnitude of a row.
pub fn peak_of<S: Sample>(row: &[S]) -> (peak: S)
    ensures
        peak_is(row@, peak),
{
    let mut peak = S::whole(0);
    let mut i: usize = 0;
    proof {
        lemma_peak_start(peak);
        assert(row@.take(0) =~= Seq::<S>::empty());
    }
    while i < row.len()
        invariant
            i <= row@.len(),
            peak_is(row@.take(i as int), peak),
        decreases row@.len() - i,
    {
        let size = row[i].magnitude();
        let next = peak.greater(size);
        proof {
            lemma_peak_step(row@.take(i as int), peak, row@[i as int], size, next);
            assert(row@.take(i + 1) =~= row@.take(i as int).push(row@[i as int]));
        }
        peak = next;
        i += 1;
    }
    assert(row@.take(i as int) =~= row@);
    peak
}

/// Adds one row to another.
pub fn sum_row<S: Sample>(src: &[S], dst: &mut [S])
    requires
        src@.len() == old(dst)@.len(),
    ensures
        final(dst)@.len() == old(dst)@.len(),
        forall|i: int| 0 <= i < src@.len() ==> sum_is(old(dst)@[i], src@[i], #[trigger] final(dst)@[i]),
{
    let mut i: usize = 0;
    while i < src.len()
        invariant
            i <= src@.len(),
            dst@.len() == src@.len(),
            src@.len() == old(dst)@.len(),
            forall|j: int| 0 <= j < i ==> sum_is(old(dst)@[j], src@[j], #[trigger] dst@[j]),
            forall|j: int| i <= j < src@.len() ==> #[trigger] dst@[j] == old(dst)@[j],
        decreases src@.len() - i,
    {
        dst[i] = dst[i].plus(src[i]);
        i += 1;
    }
}

/// One step of the talk fade towards its target.
pub fn fade<S: Sample>(r: S, target: S, step: S) -> (next: S)
    ensures
        fade_is(r, target, step, next),
{
    let rising = target.exceeds(r);
    if rising {
        let moved = r.plus(step);
        let next = moved.lesser(target);
        assert(fade_by(r, target, step, FadeSteps { rising, moved }, next));
        next
    } else {
        let moved = r.minus(step);
        let next = moved.greater(target);
        assert(fade_by(r, target, step, FadeSteps { rising, moved }, next));
        next
    }
}

/// Fades a microphone row, sample by sample, and trims it. Returns where the ramp ends.
pub fn fade_row<S: Sample>(mic: &[S], ramp: S, target: S, step: S, trim: S, dst: &mut [S]) -> (end: S)
    requires
        mic@.len() == old(dst)@.len(),
    ensures
        exists|ramps: Seq<S>| #[trigger]
            faded_run(mic@, ramps, target, step, trim, final(dst)@) && ramps[0] == ramp && ramps.last() == end,
{
    let ghost mut ramps: Seq<S> = seq![ramp];
    let mut r = ramp;
    let mut i: usize = 0;
    while i < mic.len()
        invariant
            i <= mic@.len(),
            dst@.len() == mic@.len(),
            ramps.len() == i + 1,
            ramps[0] == ramp,
            ramps.last() == r,
            forall|j: int|
                #![trigger dst@[j]]
                0 <= j < i ==> fade_step(mic@[j], ramps[j], target, step, trim, ramps[j + 1], dst@[j]),
        decreases mic@.len() - i,
    {
        let next = fade(r, target, step);
        let x = mic[i].times(next);
        let y = x.times(trim);
        dst[i] = y;
        proof {
            assert(product_is(mic@[i as int], next, x));
            assert(faded_is(mic@[i as int], next, trim, y));
            ramps = ramps.push(next);
        }
        r = next;
        i += 1;
    }
    assert(faded_run(mic@, ramps, target, step, trim, dst@));
    r
}

/// A bus row less one's own contribution, scaled.
pub fn mix_minus_row<S: Sample>(bus: &[S], own: &[S], g: S, dst: &mut [S])
    requires
        bus@.len() == old(dst)@.len(),
        own@.len() == old(dst)@.len(),
    ensures
        mix_minus_by(bus@, own@, g, final(dst)@),
{
    let mut i: usize = 0;
    while i < own.len()
        invariant
            i <= own@.len(),
            bus@.len() == own@.len(),
            dst@.len() == own@.len(),
            forall|j: int| 0 <= j < i ==> minus_own(bus@[j], own@[j], g, #[trigger] dst@[j]),
        decreases own@.len() - i,
    {
        let d = bus[i].minus(own[i]);
        let y = d.times(g);
        dst[i] = y;
        assert(difference_is(bus@[i as int], own@[i as int], d));
        assert(minus_own(bus@[i as int], own@[i as int], g, y));
        i += 1;
    }
}

/// A silent buffer.
pub fn silent_vec<S: Sample>(n: usize) -> (r: Vec<S>)
    ensures
        r@.len() == n,
        silent(r@),
{
    let mut out: Vec<S> = Vec::new();
    let mut i: usize = 0;
    while i < n
        invariant
            i <= n,
            out@.len() == i,
            silent(out@),
        decreases n - i,
    {
        out.push(S::whole(0));
        i += 1;
    }
    out
}

} // verus!

//! A zero-lookahead peak limiter, one per output stream.

use vstd::prelude::*;

use crate::sample::{
    difference_is, exact, exceeds_is, exponential_is, greater_is, lemma_peak_start, lemma_peak_step,
    magnitude_is, peak_is, product_is, quotient_is, ratio, ratio_by, ratio_is, size, sum_is, whole_is, Ratio,
    Sample,
};

verus! {

/// The default threshold, -1 dBFS, in millionths.
pub const DEFAULT_THRESHOLD_MILLIONTHS: i64 = 891_251;

/// The default release time constant, in milliseconds.
pub const DEFAULT_RELEASE_MS: i64 = 50;

/// A zero-lookahead peak limiter.
///
/// Attack is instantaneous: when a sample would exceed the threshold, the gain drops to
/// the value that lands it on the threshold, on that same sample.
#[derive(Clone, Copy)]
pub struct Limiter<S> {
    pub threshold: S,
    pub gain: S,
    pub release_coef: S,
}

/// The steps to the release coefficient.
pub struct ReleaseSteps<S> {
    pub least_rate: S,
    pub rate: S,
    pub least_release: S,
    pub release: S,
    pub samples: S,
    pub minus_one: S,
    pub exponent: S,
    pub decay: S,
    pub one: S,
}

pub open spec fn release_by<S: Sample>(sample_rate: S, release_s: S, w: ReleaseSteps<S>, r: S) -> bool {
    &&& whole_is(1, w.least_rate)
    &&& greater_is(sample_rate, w.least_rate, w.rate)
    &&& ratio_is(1, 1_000_000, w.least_release)
    &&& greater_is(release_s, w.least_release, w.release)
    &&& product_is(w.release, w.rate, w.samples)
    &&& whole_is(-1, w.minus_one)
    &&& quotient_is(w.minus_one, w.samples, w.exponent)
    &&& exponential_is(w.exponent, w.decay)
    &&& whole_is(1, w.one)
    &&& difference_is(w.one, w.decay, r)
}

/// `r` is the share of the way back to unity that the gain goes on each sample:
/// `1 - exp(-1 / (release * rate))`, with the rate at least 1 and the release at least a
/// millionth of a second.
pub open spec fn release_is<S: Sample>(sample_rate: S, release_s: S, r: S) -> bool {
    exists|w: ReleaseSteps<S>| #[trigger] release_by(sample_rate, release_s, w, r)
}

/// A limiter at rest: unity gain.
pub open spec fn limiter_fresh<S: Sample>(l: Limiter<S>, sample_rate: S, threshold: S, release_s: S) -> bool {
    &&& l.threshold == threshold
    &&& whole_is(1, l.gain)
    &&& release_is(sample_rate, release_s, l.release_coef)
}

/// The steps of limiting one sample.
pub struct LimitSteps<S> {
    pub size: S,
    pub over: bool,
    pub target: S,
    pub attack: bool,
    pub gap: S,
    pub step: S,
}

pub open spec fn limited_by<S: Sample>(
    before: Limiter<S>,
    x: S,
    w: LimitSteps<S>,
    after: Limiter<S>,
    y: S,
) -> bool {
    &&& magnitude_is(x, w.size)
    &&& exceeds_is(w.size, before.threshold, w.over)
    &&& if w.over {
        quotient_is(before.threshold, w.size, w.target)
    } else {
        whole_is(1, w.target)
    }
    &&& exceeds_is(before.gain, w.target, w.attack)
    &&& if w.attack {
        after.gain == w.target
    } else {
        &&& difference_is(w.target, before.gain, w.gap)
        &&& product_is(w.gap, before.release_coef, w.step)
        &&& sum_is(before.gain, w.step, after.gain)
    }
    &&& product_is(x, after.gain, y)
    &&& after.threshold == before.threshold
    &&& after.release_coef == before.release_coef
}

/// One sample limited: the gain a louder sample needs, at once; otherwise the gain
/// released towards unity; then the sample scaled by it.
pub open spec fn limited<S: Sample>(before: Limiter<S>, x: S, after: Limiter<S>, y: S) -> bool {
    exists|w: LimitSteps<S>| #[trigger] limited_by(before, x, w, after, y)
}

pub open spec fn limited_run<S: Sample>(xs: Seq<S>, states: Seq<Limiter<S>>, ys: Seq<S>) -> bool {
    &&& ys.len() == xs.len()
    &&& states.len() == xs.len() + 1
    &&& forall|i: int|
        #![trigger xs[i]]
        #![trigger ys[i]]
        0 <= i < xs.len() ==> limited(states[i], xs[i], states[i + 1], ys[i])
}

/// A block limited sample by sample.
pub open spec fn block_limited<S: Sample>(before: Limiter<S>, xs: Seq<S>, after: Limiter<S>, ys: Seq<S>) -> bool {
    exists|states: Seq<Limiter<S>>| #[trigger]
        limited_run(xs, states, ys) && states[0] == before && states.last() == after
}

impl<S: Sample> Limiter<S> {
    /// A limiter with the default threshold and release.
    pub fn new(sample_rate: S) -> (r: Self)
        ensures
            exists|release_s: S| #[trigger]
                limiter_fresh(r, sample_rate, r.threshold, release_s) && ratio_is(
                    DEFAULT_RELEASE_MS as int,
                    1000,
                    release_s,
                ),
            ratio_is(DEFAULT_THRESHOLD_MILLIONTHS as int, 1_000_000, r.threshold),
    {
        let threshold = ratio::<S>(DEFAULT_THRESHOLD_MILLIONTHS, 1_000_000);
        let release_s = ratio::<S>(DEFAULT_RELEASE_MS, 1000);
        Limiter::with_settings(sample_rate, threshold, release_s)
    }

    pub fn with_settings(sample_rate: S, threshold: S, release_s: S) -> (r: Self)
        ensures
            limiter_fresh(r, sample_rate, threshold, release_s),
    {
        let least_rate = S::whole(1);
        let rate = sample_rate.greater(least_rate);
        let least_release = ratio::<S>(1, 1_000_000);
        let release = release_s.greater(least_release);
        let samples = release.times(rate);
        let minus_one = S::whole(-1);
        let exponent = minus_one.over(samples);
        let decay = exponent.exponential();
        let one = S::whole(1);
        let release_coef = one.minus(decay);
        proof {
            let w = ReleaseSteps {
                least_rate,
                rate,
                least_release,
                release,
                samples,
                minus_one,
                exponent,
                decay,
                one,
            };
            assert(release_by(sample_rate, release_s, w, release_coef));
        }
        Limiter { threshold, gain: S::whole(1), release_coef }
    }

    /// Limit one sample.
    pub fn step(&mut self, x: S) -> (y: S)
        ensures
            limited(*old(self), x, *final(self), y),
    {
        let before = *self;
        let size = x.magnitude();
        let over = size.exceeds(self.threshold);
        let target = if over {
            self.threshold.over(size)
        } else {
            S::whole(1)
        };
        let attack = self.gain.exceeds(target);
        let mut gap = target;
        let mut step = target;
        if attack {
            self.gain = target;
        } else {
            gap = target.minus(self.gain);
            step = gap.times(self.release_coef);
            self.gain = self.gain.plus(step);
        }
        let y = x.times(self.gain);
        assert(limited_by(before, x, LimitSteps { size, over, target, attack, gap, step }, *self, y));
        y
    }

    /// Limit a block in place. Returns the peak magnitude after limiting.
    pub fn process(&mut self, buf: &mut [S]) -> (peak: S)
        ensures
            block_limited(*old(self), old(buf)@, *final(self), final(buf)@),
            peak_is(final(buf)@, peak),
    {
        let ghost xs = buf@;
        let ghost mut states: Seq<Limiter<S>> = seq![*self];
        let mut peak = S::whole(0);
        let mut i: usize = 0;
        proof {
            lemma_peak_start(peak);
            assert(buf@.take(0) =~= Seq::<S>::empty());
            assert(xs.take(0) =~= Seq::<S>::empty());
        }
        while i < buf.len()
            invariant
                i <= buf@.len(),
                buf@.len() == xs.len(),
                xs == old(buf)@,
                limited_run(xs.take(i as int), states, buf@.take(i as int)),
                states[0] == *old(self),
                states.last() == *self,
                forall|j: int| i <= j < xs.len() ==> buf@[j] == xs[j],
                peak_is(buf@.take(i as int), peak),
            decreases buf@.len() - i,
        {
            let ghost before = buf@;
            let ghost last = *self;
            let x = buf[i];
            let y = self.step(x);
            buf[i] = y;
            let size = y.magnitude();
            let next = peak.greater(size);
            proof {
                lemma_peak_step(before.take(i as int), peak, y, size, next);
                assert(buf@.take(i + 1) =~= before.take(i as int).push(y));
                assert(xs.take(i + 1) =~= xs.take(i as int).push(x));
                states = states.push(*self);
                assert(limited_run(xs.take(i + 1), states, buf@.take(i + 1)));
            }
            peak = next;
            i += 1;
        }
        proof {
            assert(xs.take(i as int) =~= xs);
            assert(buf@.take(i as int) =~= buf@);
        }
        peak
    }
}

/// A limiter whose settings and state make sense as real numbers.
pub open spec fn limiter_sane<S: Sample>(val: spec_fn(S) -> real, l: Limiter<S>) -> bool {
    &&& val(l.threshold) > 0 as real
    &&& (0 as real) < val(l.gain) <= 1 as real
    &&& 0 as real <= val(l.release_coef) <= 1 as real
}

proof fn lemma_scaled_within(x: real, g: real, limit: real)
    by (nonlinear_arith)
    requires
        0 as real <= x,
        0 as real <= g <= 1 as real,
        x <= limit,
    ensures
        0 as real <= x * g <= limit,
{
}

proof fn lemma_quotient_scaled(x: real, t: real, g: real)
    by (nonlinear_arith)
    requires
        x > 0 as real,
        t > 0 as real,
        0 as real <= g <= t / x,
    ensures
        x * g <= t,
        0 as real <= x * g,
{
    assert(t / x * x == t);
}

proof fn lemma_quotient_below_one(x: real, t: real)
    by (nonlinear_arith)
    requires
        x > t,
        t > 0 as real,
    ensures
        (0 as real) < t / x <= 1 as real,
{
    assert(t / x * x == t);
}

proof fn lemma_release_between(g: real, t: real, c: real, r: real)
    by (nonlinear_arith)
    requires
        g <= t,
        0 as real <= c <= 1 as real,
        r == g + (t - g) * c,
    ensures
        g <= r <= t,
{
}

proof fn lemma_size_of_product(x: real, g: real)
    by (nonlinear_arith)
    requires
        0 as real <= g,
    ensures
        size(x * g) == size(x) * g,
{
}

proof fn lemma_scaled_kept(x: real, g: real)
    by (nonlinear_arith)
    requires
        (0 as real) < g <= 1 as real,
    ensures
        size(x * g) <= size(x),
        x > 0 as real ==> x * g > 0 as real,
        x < 0 as real ==> x * g < 0 as real,
        x == 0 as real ==> x * g == 0 as real,
{
}

proof fn lemma_product_positive(x: real, y: real)
    by (nonlinear_arith)
    requires
        x > 0 as real,
        y > 0 as real,
    ensures
        x * y > 0 as real,
{
}

proof fn lemma_quotient_negative(x: real)
    by (nonlinear_arith)
    requires
        x > 0 as real,
    ensures
        (-1 as real) / x < 0 as real,
{
    assert((-1 as real) / x * x == -1 as real);
}

/// In exact arithmetic a new limiter makes sense, whatever the rate and the release, as long
/// as its threshold does.
pub proof fn law_new_limiter_is_sane<S: Sample>(
    val: spec_fn(S) -> real,
    l: Limiter<S>,
    sample_rate: S,
    threshold: S,
    release_s: S,
)
    requires
        exact(val),
        limiter_fresh(l, sample_rate, threshold, release_s),
        val(threshold) > 0 as real,
    ensures
        limiter_sane(val, l),
        val(l.gain) == 1 as real,
{
    let w = choose|w: ReleaseSteps<S>| #[trigger] release_by(sample_rate, release_s, w, l.release_coef);
    let least = choose|least: Ratio<S>| #[trigger] ratio_by(1, 1_000_000, least, w.least_release);
    assert(val(w.least_release) == 1 as real / 1_000_000 as real);
    assert(val(w.rate) > 0 as real);
    assert(val(w.release) > 0 as real);
    lemma_product_positive(val(w.release), val(w.rate));
    assert(val(w.minus_one) == -1 as real);
    lemma_quotient_negative(val(w.samples));
    assert(val(w.exponent) <= 0 as real);
}

/// What limiting does to one sample as a real number: it comes within the threshold, gets no
/// louder, and keeps its sign.
pub open spec fn tamed(threshold: real, x: real, y: real) -> bool {
    &&& size(y) <= threshold
    &&& size(y) <= size(x)
    &&& x > 0 as real ==> y > 0 as real
    &&& x < 0 as real ==> y < 0 as real
    &&& x == 0 as real ==> y == 0 as real
}

/// In exact arithmetic the limiter never lets a sample past its threshold, makes none louder
/// and turns none over, and its gain stays between zero and unity.
pub proof fn law_limiter_holds<S: Sample>(
    val: spec_fn(S) -> real,
    before: Limiter<S>,
    x: S,
    after: Limiter<S>,
    y: S,
)
    requires
        exact(val),
        limiter_sane(val, before),
        limited(before, x, after, y),
    ensures
        tamed(val(before.threshold), val(x), val(y)),
        limiter_sane(val, after),
        after.threshold == before.threshold,
{
    let w = choose|w: LimitSteps<S>| #[trigger] limited_by(before, x, w, after, y);
    let t = val(before.threshold);
    let a = size(val(x));
    assert(val(w.size) == a);
    if w.over {
        lemma_quotient_below_one(a, t);
        assert(val(w.target) == t / a);
    } else {
        assert(val(w.target) == 1 as real);
    }
    let g = val(after.gain);
    if !w.attack {
        lemma_release_between(val(before.gain), val(w.target), val(before.release_coef), g);
    }
    assert((0 as real) < g <= val(w.target));
    lemma_size_of_product(val(x), g);
    lemma_scaled_kept(val(x), g);
    if w.over {
        lemma_quotient_scaled(a, t, g);
    } else {
        lemma_scaled_within(a, g, t);
    }
}

/// In exact arithmetic a whole block comes out within the threshold, from its first sample
/// on, none of it louder and none turned over.
pub proof fn law_block_stays_within<S: Sample>(
    val: spec_fn(S) -> real,
    before: Limiter<S>,
    xs: Seq<S>,
    after: Limiter<S>,
    ys: Seq<S>,
)
    requires
        exact(val),
        limiter_sane(val, before),
        block_limited(before, xs, after, ys),
    ensures
        ys.len() == xs.len(),
        forall|i: int|
            0 <= i < ys.len() ==> tamed(val(before.threshold), val(xs[i]), val(#[trigger] ys[i])),
        limiter_sane(val, after),
        after.threshold == before.threshold,
{
    let states = choose|states: Seq<Limiter<S>>| #[trigger]
        limited_run(xs, states, ys) && states[0] == before && states.last() == after;
    lemma_run_within(val, xs, states, ys, xs.len() as int);
}

proof fn lemma_run_within<S: Sample>(
    val: spec_fn(S) -> real,
    xs: Seq<S>,
    states: Seq<Limiter<S>>,
    ys: Seq<S>,
    n: int,
)
    requires
        exact(val),
        limited_run(xs, states, ys),
        limiter_sane(val, states[0]),
        0 <= n <= xs.len(),
    ensures
        limiter_sane(val, states[n]),
        states[n].threshold == states[0].threshold,
        forall|i: int| 0 <= i < n ==> tamed(val(states[0].threshold), val(xs[i]), val(#[trigger] ys[i])),
    decreases n,
{
    if n > 0 {
        lemma_run_within(val, xs, states, ys, n - 1);
        assert(limited(states[n - 1], xs[n - 1], states[n], ys[n - 1]));
        law_limiter_holds(val, states[n - 1], xs[n - 1], states[n], ys[n - 1]);
    }
}

} // verus!

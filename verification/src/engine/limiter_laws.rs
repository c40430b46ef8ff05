//! What the limiter does to a signal, as real numbers.

use vstd::prelude::*;

use crate::config::coherence::coherent;
use crate::config::model::ConfigView;
use crate::engine::laws::lemma_stream_inside;
use crate::engine::limiter::{
    block_limited, law_limiter_holds, limited, limited_by, limited_run, limiter_fresh, limiter_sane, release_by,
    LimitSteps, Limiter, ReleaseSteps, DEFAULT_RELEASE_MS, DEFAULT_THRESHOLD_MILLIONTHS,
};
use crate::engine::order::stream_of;
use crate::engine::plan::{compiled, compiled_at, key_compiled, limiter_default, EngineView};
use crate::sample::{exact, exponential_is, ratio_by, ratio_is, size, Ratio, Sample};

verus! {

proof fn lemma_landing(x: real, a: real, t: real, g: real)
    by (nonlinear_arith)
    requires
        a == size(x),
        a > t,
        t > 0 as real,
        g == t / a,
    ensures
        size(x * g) == t,
        g * a == t,
        g > 0 as real,
{
    assert(t / a * a == t);
}

proof fn lemma_beyond(g: real, a: real, t: real)
    by (nonlinear_arith)
    requires
        a > 0 as real,
    ensures
        g * a > t ==> g > t / a,
        g * a == t ==> g == t / a,
        g * a < t ==> g < t / a,
{
    assert(t / a * a == t);
}

/// In exact arithmetic a sample that the gain held so far would leave at or above the
/// threshold comes out exactly at the threshold, with its sign: the gain drops to the value
/// that lands it there, on that same sample.
pub proof fn law_loud_sample_lands_on_the_threshold<S: Sample>(
    val: spec_fn(S) -> real,
    before: Limiter<S>,
    x: S,
    after: Limiter<S>,
    y: S,
)
    requires
        exact(val),
        limiter_sane(val, before),
        limited(before, x, after, y),
        size(val(x)) > val(before.threshold),
        val(before.gain) * size(val(x)) >= val(before.threshold),
    ensures
        size(val(y)) == val(before.threshold),
        val(x) > 0 as real ==> val(y) == val(before.threshold),
        val(x) < 0 as real ==> val(y) == 0 as real - val(before.threshold),
        val(after.gain) * size(val(x)) == val(before.threshold),
{
    let w = choose|w: LimitSteps<S>| #[trigger] limited_by(before, x, w, after, y);
    let t = val(before.threshold);
    let a = size(val(x));
    lemma_beyond(val(before.gain), a, t);
    assert(val(w.target) == t / a);
    if !w.attack {
        assert(val(before.gain) == val(w.target));
        assert((0 as real) * val(before.release_coef) == 0 as real) by (nonlinear_arith);
    }
    assert(val(after.gain) == t / a);
    lemma_landing(val(x), a, t, val(after.gain));
    let g = val(after.gain);
    assert((val(x) > 0 as real ==> val(x) * g > 0 as real) && (val(x) < 0 as real ==> val(x) * g < 0 as real))
        by (nonlinear_arith)
        requires
            g > 0 as real,
            g == val(after.gain),
    ;
}

/// In exact arithmetic a sample is scaled by the gain of its own instant, and where it does
/// not call for less gain, the gain has gone the release share of the way towards unity, or
/// towards what a loud sample allows.
pub proof fn law_gain_is_released<S: Sample>(
    val: spec_fn(S) -> real,
    before: Limiter<S>,
    x: S,
    after: Limiter<S>,
    y: S,
)
    requires
        exact(val),
        limiter_sane(val, before),
        limited(before, x, after, y),
    ensures
        val(y) == val(x) * val(after.gain),
        size(val(x)) <= val(before.threshold) ==> val(after.gain) - val(before.gain) == (1 as real - val(before.gain))
            * val(before.release_coef),
        size(val(x)) > val(before.threshold) && val(before.gain) * size(val(x)) < val(before.threshold) ==> val(
            after.gain,
        ) - val(before.gain) == (val(before.threshold) / size(val(x)) - val(before.gain)) * val(before.release_coef),
        after.release_coef == before.release_coef,
        after.threshold == before.threshold,
{
    let w = choose|w: LimitSteps<S>| #[trigger] limited_by(before, x, w, after, y);
    let t = val(before.threshold);
    let a = size(val(x));
    if a > t {
        lemma_beyond(val(before.gain), a, t);
    } else {
        assert(val(w.target) == 1 as real);
    }
}

/// In exact arithmetic a steady tone above the threshold comes out at the threshold, from its
/// first sample to its last, as long as the gain held before does not already keep it below.
pub proof fn law_steady_tone_comes_out_at_the_threshold<S: Sample>(
    val: spec_fn(S) -> real,
    before: Limiter<S>,
    xs: Seq<S>,
    after: Limiter<S>,
    ys: Seq<S>,
    a: real,
)
    requires
        exact(val),
        limiter_sane(val, before),
        block_limited(before, xs, after, ys),
        a > val(before.threshold),
        val(before.gain) * a >= val(before.threshold),
        forall|i: int| 0 <= i < xs.len() ==> size(val(#[trigger] xs[i])) == a,
    ensures
        ys.len() == xs.len(),
        forall|i: int| 0 <= i < ys.len() ==> size(val(#[trigger] ys[i])) == val(before.threshold),
{
    let states = choose|states: Seq<Limiter<S>>| #[trigger]
        limited_run(xs, states, ys) && states[0] == before && states.last() == after;
    lemma_steady_run(val, xs, states, ys, a, xs.len() as int);
}

proof fn lemma_steady_run<S: Sample>(
    val: spec_fn(S) -> real,
    xs: Seq<S>,
    states: Seq<Limiter<S>>,
    ys: Seq<S>,
    a: real,
    n: int,
)
    requires
        exact(val),
        limited_run(xs, states, ys),
        limiter_sane(val, states[0]),
        a > val(states[0].threshold),
        val(states[0].gain) * a >= val(states[0].threshold),
        forall|i: int| 0 <= i < xs.len() ==> size(val(#[trigger] xs[i])) == a,
        0 <= n <= xs.len(),
    ensures
        limiter_sane(val, states[n]),
        states[n].threshold == states[0].threshold,
        val(states[n].gain) * a >= val(states[0].threshold),
        forall|i: int| 0 <= i < n ==> size(val(#[trigger] ys[i])) == val(states[0].threshold),
    decreases n,
{
    if n > 0 {
        lemma_steady_run(val, xs, states, ys, a, n - 1);
        let x = xs[n - 1];
        assert(size(val(x)) == a);
        assert(limited(states[n - 1], x, states[n], ys[n - 1]));
        law_limiter_holds(val, states[n - 1], x, states[n], ys[n - 1]);
        law_loud_sample_lands_on_the_threshold(val, states[n - 1], x, states[n], ys[n - 1]);
    }
}

/// The gain is carried from block to block: two blocks limited one after the other are the
/// one block that they make, limited whole.
pub proof fn law_blocks_follow_on<S: Sample>(
    a: Limiter<S>,
    xs: Seq<S>,
    b: Limiter<S>,
    ys: Seq<S>,
    more: Seq<S>,
    c: Limiter<S>,
    rest: Seq<S>,
)
    requires
        block_limited(a, xs, b, ys),
        block_limited(b, more, c, rest),
    ensures
        block_limited(a, xs + more, c, ys + rest),
{
    let s1 = choose|states: Seq<Limiter<S>>| #[trigger]
        limited_run(xs, states, ys) && states[0] == a && states.last() == b;
    let s2 = choose|states: Seq<Limiter<S>>| #[trigger]
        limited_run(more, states, rest) && states[0] == b && states.last() == c;
    let all = s1 + s2.skip(1);
    let (p, q) = (xs + more, ys + rest);
    assert forall|i: int|
        #![trigger p[i]]
        #![trigger q[i]]
        0 <= i < p.len() implies limited(all[i], p[i], all[i + 1], q[i]) by {
        if i < xs.len() {
            assert(limited(s1[i], xs[i], s1[i + 1], ys[i]));
        } else {
            let j = i - xs.len();
            assert(limited(s2[j], more[j], s2[j + 1], rest[j]));
            assert(all[i + 1] == s2[j + 1]);
            assert(all[i] == s2[j]);
        }
    }
    assert(limited_run(p, all, q));
    assert(all[0] == a);
    assert(all.last() == c);
}

/// A block is limited one sample after the other, the first from the gain before the block.
pub proof fn law_samples_are_limited_in_order<S: Sample>(
    before: Limiter<S>,
    x: S,
    after: Limiter<S>,
    y: S,
)
    requires
        block_limited(before, seq![x], after, seq![y]),
    ensures
        limited(before, x, after, y),
{
    let (xs, ys) = (seq![x], seq![y]);
    let states = choose|states: Seq<Limiter<S>>| #[trigger]
        limited_run(xs, states, ys) && states[0] == before && states.last() == after;
    assert(limited(states[0], xs[0], states[1], ys[0]));
}

/// In exact arithmetic the release share is one less the exponential of minus one over the
/// samples in the release time, with the rate at least one and the time at least a
/// microsecond.
pub proof fn law_release_follows_time<S: Sample>(
    val: spec_fn(S) -> real,
    rate: S,
    threshold: S,
    release_s: S,
    l: Limiter<S>,
)
    requires
        exact(val),
        call_ensures(Limiter::<S>::with_settings, (rate, threshold, release_s), l),
    ensures
        l.threshold == threshold,
        val(l.gain) == 1 as real,
        ({
            let r = if val(rate) < 1 as real {
                1 as real
            } else {
                val(rate)
            };
            let time = if val(release_s) * (1_000_000 as real) < 1 as real {
                (1 as real) / (1_000_000 as real)
            } else {
                val(release_s)
            };
            exists|e: S, d: S| #[trigger]
                exponential_is(e, d) && val(e) * (time * r) == -1 as real && val(l.release_coef) == 1 as real - val(d)
        }),
{
    assert(limiter_fresh(l, rate, threshold, release_s));
    let w = choose|w: ReleaseSteps<S>| #[trigger] release_by(rate, release_s, w, l.release_coef);
    let least = choose|least: Ratio<S>| #[trigger] ratio_by(1, 1_000_000, least, w.least_release);
    assert(val(w.least_release) == 1 as real / 1_000_000 as real);
    let n = val(w.samples);
    let (p, q) = (val(w.release), val(w.rate));
    assert(p > 0 as real && q > 0 as real);
    assert(p * q > 0 as real) by (nonlinear_arith)
        requires
            p > 0 as real,
            q > 0 as real,
    ;
    assert(val(w.exponent) * n == -1 as real) by (nonlinear_arith)
        requires
            n > 0 as real,
            val(w.exponent) == (-1 as real) / n,
    ;
    assert(exponential_is(w.exponent, w.decay));
}

proof fn lemma_default_limiter<S: Sample>(val: spec_fn(S) -> real, rate: S, l: Limiter<S>)
    requires
        exact(val),
        limiter_default(l, rate),
        val(rate) >= 1 as real,
    ensures
        val(l.threshold) * (1_000_000 as real) == 891_251 as real,
        val(l.gain) == 1 as real,
        exists|e: S, d: S| #[trigger]
            exponential_is(e, d) && val(e) * val(rate) == -20 as real && val(l.release_coef) == 1 as real - val(d),
{
    let release_s = choose|release_s: S| #[trigger]
        limiter_fresh(l, rate, l.threshold, release_s) && ratio_is(
            DEFAULT_RELEASE_MS as int,
            1000,
            release_s,
        );
    let u = choose|u: Ratio<S>| #[trigger]
        ratio_by(DEFAULT_RELEASE_MS as int, 1000, u, release_s);
    let t = choose|t: Ratio<S>| #[trigger]
        ratio_by(DEFAULT_THRESHOLD_MILLIONTHS as int, 1_000_000, t, l.threshold);
    assert(val(l.threshold) == 891_251 as real / 1_000_000 as real);
    assert(val(release_s) == 50 as real / 1000 as real);
    let w = choose|w: ReleaseSteps<S>| #[trigger] release_by(rate, release_s, w, l.release_coef);
    let least = choose|least: Ratio<S>| #[trigger] ratio_by(1, 1_000_000, least, w.least_release);
    assert(val(w.least_release) == 1 as real / 1_000_000 as real);
    assert(val(w.release) == 50 as real / 1000 as real);
    let n = val(w.samples);
    let q = val(rate);
    assert(n == (50 as real / 1000 as real) * q);
    assert(n > 0 as real) by (nonlinear_arith)
        requires
            q >= 1 as real,
            n == (50 as real / 1000 as real) * q,
    ;
    assert(val(w.exponent) * q == -20 as real) by (nonlinear_arith)
        requires
            q >= 1 as real,
            n == (50 as real / 1000 as real) * q,
            val(w.exponent) == (-1 as real) / n,
    {
        assert(n > 0 as real);
        assert(val(w.exponent) * n == -1 as real);
    }
    assert(exponential_is(w.exponent, w.decay));
}

/// In exact arithmetic the default limiter's threshold is 0.891251, and it releases with a time
/// constant of a twentieth of a second.
pub proof fn law_default_limiter<S: Sample>(val: spec_fn(S) -> real, rate: S, l: Limiter<S>)
    requires
        exact(val),
        call_ensures(Limiter::<S>::new, (rate,), l),
        val(rate) >= 1 as real,
    ensures
        val(l.threshold) * (1_000_000 as real) == 891_251 as real,
        val(l.gain) == 1 as real,
        exists|e: S, d: S| #[trigger]
            exponential_is(e, d) && val(e) * val(rate) == -20 as real && val(l.release_coef) == 1 as real - val(d),
{
    assert(limiter_default(l, rate));
    lemma_default_limiter(val, rate, l);
}

/// Every stream of a compiled engine starts with the default limiter, at rest, at the
/// configuration's sample rate.
pub proof fn law_every_stream_starts_with_the_default_limiter<S: Sample>(
    val: spec_fn(S) -> real,
    c: ConfigView,
    v: EngineView<S>,
    i: int,
    k: int,
)
    requires
        exact(val),
        coherent(c),
        compiled(c, v),
        0 <= i < c.endpoints.len(),
        0 <= k < c.endpoints[i].keys.len(),
    ensures
        ({
            let l = v.keys[stream_of(c.endpoints, i, k)].limiter;
            &&& val(l.threshold) * (1_000_000 as real) == 891_251 as real
            &&& val(l.gain) == 1 as real
            &&& exists|e: S, d: S| #[trigger]
                exponential_is(e, d) && val(e) * (c.system.sample_rate as real) == -20 as real && val(l.release_coef)
                    == 1 as real - val(d)
        }),
{
    let rate = choose|rate: S| #[trigger] compiled_at(c, rate, v);
    let s = stream_of(c.endpoints, i, k);
    lemma_stream_inside(c, i, k);
    assert(key_compiled(c, i, k, rate, v.keys[s]));
    lemma_default_limiter(val, rate, v.keys[s].limiter);
}

} // verus!

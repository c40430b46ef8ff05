//! The arithmetic of the signal path and of the clock servo.
//!
//! Both are generic over the number they compute with. Nothing is assumed of the
//! operations: every contract says which operation gave which value, in which order.

use vstd::prelude::*;

verus! {

/// A number to compute signals with: the elementary operations, and nothing else.
pub trait Sample: Sized + Copy {
    /// The number with this single-precision bit pattern.
    fn from_bits(bits: u32) -> Self;

    /// A whole number.
    fn whole(n: i64) -> Self;

    fn plus(self, other: Self) -> Self;

    fn minus(self, other: Self) -> Self;

    fn times(self, other: Self) -> Self;

    fn over(self, other: Self) -> Self;

    /// This number to the power of the other.
    fn power(self, exponent: Self) -> Self;

    /// Euler's number to this power.
    fn exponential(self) -> Self;

    /// The logarithm to base ten.
    fn logarithm(self) -> Self;

    /// The absolute value.
    fn magnitude(self) -> Self;

    fn greater(self, other: Self) -> Self;

    fn lesser(self, other: Self) -> Self;

    /// Whether this is strictly more than the other.
    fn exceeds(self, other: Self) -> bool;

    /// Whether this is no more than the other.
    fn at_most(self, other: Self) -> bool;

    fn equals(self, other: Self) -> bool;

    /// The number with its sign changed.
    fn negated(self) -> Self;

    /// The nearest whole number, halves away from zero.
    fn rounded(self) -> Self;

    /// The part after the point, with the number's sign.
    fn fraction(self) -> Self;

    /// The whole part, towards zero; the nearest one that fits, and zero where there is none.
    fn truncated(self) -> i128;
}

// Names for "this operation gave this value".

pub open spec fn whole_is<S: Sample>(n: int, r: S) -> bool {
    call_ensures(S::whole, (n as i64,), r)
}

pub open spec fn bits_are<S: Sample>(bits: u32, r: S) -> bool {
    call_ensures(S::from_bits, (bits,), r)
}

pub open spec fn sum_is<S: Sample>(a: S, b: S, r: S) -> bool {
    call_ensures(S::plus, (a, b), r)
}

pub open spec fn difference_is<S: Sample>(a: S, b: S, r: S) -> bool {
    call_ensures(S::minus, (a, b), r)
}

pub open spec fn product_is<S: Sample>(a: S, b: S, r: S) -> bool {
    call_ensures(S::times, (a, b), r)
}

pub open spec fn quotient_is<S: Sample>(a: S, b: S, r: S) -> bool {
    call_ensures(S::over, (a, b), r)
}

pub open spec fn power_is<S: Sample>(a: S, b: S, r: S) -> bool {
    call_ensures(S::power, (a, b), r)
}

pub open spec fn exponential_is<S: Sample>(a: S, r: S) -> bool {
    call_ensures(S::exponential, (a,), r)
}

pub open spec fn logarithm_is<S: Sample>(a: S, r: S) -> bool {
    call_ensures(S::logarithm, (a,), r)
}

pub open spec fn magnitude_is<S: Sample>(a: S, r: S) -> bool {
    call_ensures(S::magnitude, (a,), r)
}

pub open spec fn greater_is<S: Sample>(a: S, b: S, r: S) -> bool {
    call_ensures(S::greater, (a, b), r)
}

pub open spec fn lesser_is<S: Sample>(a: S, b: S, r: S) -> bool {
    call_ensures(S::lesser, (a, b), r)
}

pub open spec fn exceeds_is<S: Sample>(a: S, b: S, r: bool) -> bool {
    call_ensures(S::exceeds, (a, b), r)
}

pub open spec fn at_most_is<S: Sample>(a: S, b: S, r: bool) -> bool {
    call_ensures(S::at_most, (a, b), r)
}

pub open spec fn equals_is<S: Sample>(a: S, b: S, r: bool) -> bool {
    call_ensures(S::equals, (a, b), r)
}

pub open spec fn negated_is<S: Sample>(a: S, r: S) -> bool {
    call_ensures(S::negated, (a,), r)
}

pub open spec fn rounded_is<S: Sample>(a: S, r: S) -> bool {
    call_ensures(S::rounded, (a,), r)
}

pub open spec fn fraction_is<S: Sample>(a: S, r: S) -> bool {
    call_ensures(S::fraction, (a,), r)
}

pub open spec fn truncated_is<S: Sample>(a: S, r: i128) -> bool {
    call_ensures(S::truncated, (a,), r)
}

/// A quotient of two whole numbers.
pub struct Ratio<S> {
    pub above: S,
    pub below: S,
}

pub open spec fn ratio_by<S: Sample>(n: int, d: int, w: Ratio<S>, r: S) -> bool {
    &&& whole_is(n, w.above)
    &&& whole_is(d, w.below)
    &&& quotient_is(w.above, w.below, r)
}

/// `r` is `n` over `d`.
pub open spec fn ratio_is<S: Sample>(n: int, d: int, r: S) -> bool {
    exists|w: Ratio<S>| #[trigger] ratio_by(n, d, w, r)
}

/// The quotient of two whole numbers.
pub fn ratio<S: Sample>(n: i64, d: i64) -> (r: S)
    ensures
        ratio_is(n as int, d as int, r),
{
    let above = S::whole(n);
    let below = S::whole(d);
    let r = above.over(below);
    assert(ratio_by(n as int, d as int, Ratio { above, below }, r));
    r
}

/// The steps from decibels to a gain.
pub struct GainSteps<S> {
    pub floor: S,
    pub quiet: bool,
    pub base: S,
    pub per: S,
    pub exponent: S,
}

pub open spec fn gain_by<S: Sample>(db: S, w: GainSteps<S>, r: S) -> bool {
    &&& whole_is(-120, w.floor)
    &&& at_most_is(db, w.floor, w.quiet)
    &&& if w.quiet {
        whole_is(0, r)
    } else {
        &&& whole_is(10, w.base)
        &&& whole_is(20, w.per)
        &&& quotient_is(db, w.per, w.exponent)
        &&& power_is(w.base, w.exponent, r)
    }
}

/// `r` is the linear gain of `db` decibels: zero at -120 dB and below, otherwise ten to
/// the power of a twentieth of it.
pub open spec fn gain_is<S: Sample>(db: S, r: S) -> bool {
    exists|w: GainSteps<S>| #[trigger] gain_by(db, w, r)
}

/// Convert decibels to a linear gain multiplier.
///
/// Anything at or below -120 dB gives exactly zero, so a muted path contributes nothing.
pub fn db_to_linear<S: Sample>(db: S) -> (r: S)
    ensures
        gain_is(db, r),
{
    let floor = S::whole(-120);
    let quiet = db.at_most(floor);
    if quiet {
        let r = S::whole(0);
        assert(gain_by(db, GainSteps { floor, quiet, base: r, per: r, exponent: r }, r));
        r
    } else {
        let base = S::whole(10);
        let per = S::whole(20);
        let exponent = db.over(per);
        let r = base.power(exponent);
        assert(gain_by(db, GainSteps { floor, quiet, base, per, exponent }, r));
        r
    }
}

/// Running values: each step from one to the next.
pub open spec fn peak_by<S: Sample>(xs: Seq<S>, sizes: Seq<S>, peaks: Seq<S>) -> bool {
    &&& sizes.len() == xs.len()
    &&& peaks.len() == xs.len() + 1
    &&& whole_is(0, peaks[0])
    &&& forall|i: int|
        #![trigger xs[i]]
        #![trigger sizes[i]]
        0 <= i < xs.len() ==> magnitude_is(xs[i], sizes[i]) && greater_is(peaks[i], sizes[i], peaks[i + 1])
}

/// `r` is the peak magnitude of `xs`, found from left to right starting at zero.
pub open spec fn peak_is<S: Sample>(xs: Seq<S>, r: S) -> bool {
    exists|sizes: Seq<S>, peaks: Seq<S>| #[trigger] peak_by(xs, sizes, peaks) && peaks.last() == r
}

pub proof fn lemma_peak_start<S: Sample>(r: S)
    requires
        whole_is(0, r),
    ensures
        peak_is(Seq::<S>::empty(), r),
{
    assert(peak_by(Seq::<S>::empty(), Seq::<S>::empty(), seq![r]));
    assert(seq![r].last() == r);
}

pub proof fn lemma_peak_step<S: Sample>(xs: Seq<S>, peak: S, x: S, size: S, r: S)
    requires
        peak_is(xs, peak),
        magnitude_is(x, size),
        greater_is(peak, size, r),
    ensures
        peak_is(xs.push(x), r),
{
    let (sizes, peaks) = choose|sizes: Seq<S>, peaks: Seq<S>| #[trigger] peak_by(xs, sizes, peaks) && peaks.last() == peak;
    assert(peak_by(xs.push(x), sizes.push(size), peaks.push(r)));
    assert(peaks.push(r).last() == r);
}

/// Sums from left to right: each partial sum from the one before.
pub open spec fn total_by<S: Sample>(xs: Seq<S>, sums: Seq<S>) -> bool {
    &&& sums.len() == xs.len() + 1
    &&& whole_is(0, sums[0])
    &&& forall|i: int| #![trigger xs[i]] 0 <= i < xs.len() ==> sum_is(sums[i], xs[i], sums[i + 1])
}

/// `r` is the sum of `xs`, taken from left to right starting at zero.
pub open spec fn total_is<S: Sample>(xs: Seq<S>, r: S) -> bool {
    exists|sums: Seq<S>| #[trigger] total_by(xs, sums) && sums.last() == r
}

pub proof fn lemma_total_start<S: Sample>(r: S)
    requires
        whole_is(0, r),
    ensures
        total_is(Seq::<S>::empty(), r),
{
    assert(total_by(Seq::<S>::empty(), seq![r]));
    assert(seq![r].last() == r);
}

pub proof fn lemma_total_step<S: Sample>(xs: Seq<S>, sum: S, x: S, r: S)
    requires
        total_is(xs, sum),
        sum_is(sum, x, r),
    ensures
        total_is(xs.push(x), r),
{
    let sums = choose|sums: Seq<S>| #[trigger] total_by(xs, sums) && sums.last() == sum;
    assert(total_by(xs.push(x), sums.push(r)));
    assert(sums.push(r).last() == r);
}

// Exact arithmetic: what holds when the operations are those of the real numbers.

/// Below this size a whole part always fits; beyond it, it is at least this far off.
pub const EXACT_LIMIT: i64 = 0x4000_0000_0000_0000;

/// Under `val`, every operation is the one of the real numbers.
pub open spec fn exact<S: Sample>(val: spec_fn(S) -> real) -> bool {
    &&& forall|n: int, r: S| #[trigger] whole_is(n, r) && i64::MIN <= n <= i64::MAX ==> val(r) == n as real
    &&& forall|a: S, b: S, r: S| #[trigger] sum_is(a, b, r) ==> val(r) == val(a) + val(b)
    &&& forall|a: S, b: S, r: S| #[trigger] difference_is(a, b, r) ==> val(r) == val(a) - val(b)
    &&& forall|a: S, b: S, r: S| #[trigger] product_is(a, b, r) ==> val(r) == val(a) * val(b)
    &&& forall|a: S, b: S, r: S| #[trigger]
        quotient_is(a, b, r) && val(b) != 0 as real ==> val(r) == val(a) / val(b)
    &&& forall|a: S, r: S| #[trigger] negated_is(a, r) ==> val(r) == 0 as real - val(a)
    &&& forall|a: S, r: i128| #[trigger]
        truncated_is(a, r) && size(val(a)) < EXACT_LIMIT as real ==> size(val(a) - r as real) < 1 as real && size(
            r as real,
        ) <= size(val(a))
    &&& forall|a: S, r: i128| #[trigger] truncated_is(a, r) && val(a) >= EXACT_LIMIT as real ==> r >= EXACT_LIMIT
    &&& forall|a: S, r: i128| #[trigger]
        truncated_is(a, r) && val(a) <= 0 as real - EXACT_LIMIT as real ==> r <= -EXACT_LIMIT
    &&& forall|a: S, r: S| #[trigger]
        exponential_is(a, r) && val(a) <= 0 as real ==> (0 as real) < val(r) <= 1 as real
    &&& forall|a: S, r: S| #[trigger] magnitude_is(a, r) ==> val(r) == size(val(a))
    &&& forall|a: S, b: S, r: S| #[trigger] greater_is(a, b, r) ==> val(r) == larger(val(a), val(b))
    &&& forall|a: S, b: S, r: S| #[trigger] lesser_is(a, b, r) ==> val(r) == smaller(val(a), val(b))
    &&& forall|a: S, b: S, r: bool| #[trigger] exceeds_is(a, b, r) ==> r == (val(a) > val(b))
    &&& forall|a: S, b: S, r: bool| #[trigger] at_most_is(a, b, r) ==> r == (val(a) <= val(b))
    &&& forall|a: S, b: S, r: bool| #[trigger] equals_is(a, b, r) ==> r == (val(a) == val(b))
}

pub open spec fn size(x: real) -> real {
    if x < 0 as real {
        0 as real - x
    } else {
        x
    }
}

pub open spec fn larger(x: real, y: real) -> real {
    if x < y {
        y
    } else {
        x
    }
}

pub open spec fn smaller(x: real, y: real) -> real {
    if x < y {
        x
    } else {
        y
    }
}

/// In exact arithmetic a peak is the largest magnitude, and zero where there is none.
pub proof fn law_peak_is_the_largest<S: Sample>(val: spec_fn(S) -> real, xs: Seq<S>, r: S)
    requires
        exact(val),
        peak_is(xs, r),
    ensures
        forall|i: int| 0 <= i < xs.len() ==> size(val(#[trigger] xs[i])) <= val(r),
        val(r) == 0 as real || exists|i: int| 0 <= i < xs.len() && size(val(#[trigger] xs[i])) == val(r),
        xs.len() == 0 ==> val(r) == 0 as real,
{
    let (sizes, peaks) = choose|sizes: Seq<S>, peaks: Seq<S>| #[trigger]
        peak_by(xs, sizes, peaks) && peaks.last() == r;
    lemma_partial_peaks(val, xs, sizes, peaks, xs.len() as int);
}

proof fn lemma_partial_peaks<S: Sample>(val: spec_fn(S) -> real, xs: Seq<S>, sizes: Seq<S>, peaks: Seq<S>, n: int)
    requires
        exact(val),
        peak_by(xs, sizes, peaks),
        0 <= n <= xs.len(),
    ensures
        forall|i: int| 0 <= i < n ==> size(val(#[trigger] xs[i])) <= val(peaks[n]),
        val(peaks[n]) == 0 as real || exists|i: int| 0 <= i < n && size(val(#[trigger] xs[i])) == val(peaks[n]),
    decreases n,
{
    if n > 0 {
        lemma_partial_peaks(val, xs, sizes, peaks, n - 1);
        assert(magnitude_is(xs[n - 1], sizes[n - 1]));
        assert(greater_is(peaks[n - 1], sizes[n - 1], peaks[n]));
        if val(peaks[n]) == size(val(xs[n - 1])) {
            assert(size(val(xs[n - 1])) == val(peaks[n]));
        } else if val(peaks[n - 1]) != 0 as real {
            let i = choose|i: int| 0 <= i < n - 1 && size(val(#[trigger] xs[i])) == val(peaks[n - 1]);
            assert(size(val(xs[i])) == val(peaks[n]));
        }
    }
}

/// The sum of real numbers.
pub open spec fn real_total<S>(val: spec_fn(S) -> real, xs: Seq<S>) -> real
    decreases xs.len(),
{
    if xs.len() == 0 {
        0 as real
    } else {
        real_total(val, xs.drop_last()) + val(xs.last())
    }
}

/// In exact arithmetic a left-to-right sum is the sum.
pub proof fn lemma_total_exact<S: Sample>(val: spec_fn(S) -> real, xs: Seq<S>, r: S)
    requires
        exact(val),
        total_is(xs, r),
    ensures
        val(r) == real_total(val, xs),
    decreases xs.len(),
{
    let sums = choose|sums: Seq<S>| #[trigger] total_by(xs, sums) && sums.last() == r;
    lemma_partial_sums(val, xs, sums, xs.len() as int);
    assert(xs.take(xs.len() as int) =~= xs);
}

proof fn lemma_partial_sums<S: Sample>(val: spec_fn(S) -> real, xs: Seq<S>, sums: Seq<S>, n: int)
    requires
        exact(val),
        total_by(xs, sums),
        0 <= n <= xs.len(),
    ensures
        val(sums[n]) == real_total(val, xs.take(n)),
    decreases n,
{
    if n > 0 {
        lemma_partial_sums(val, xs, sums, n - 1);
        assert(xs.take(n).drop_last() =~= xs.take(n - 1));
        assert(xs.take(n).last() == xs[n - 1]);
        assert(sum_is(sums[n - 1], xs[n - 1], sums[n]));
    }
}

} // verus!

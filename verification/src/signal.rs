//! Finding staves in the darkness of a page's rows.
use crate::bounds::{
    lemma_over_between, lemma_power, lemma_times_between, lemma_whole_mono, lemma_whole_range,
    power,
};
use crate::image::GrayImage;
use crate::order::{sum, sum_range, EMPTY_SUM};
use crate::rounding::{lemma_units_mono, units};
use crate::single::{one_units, whole, Single};
use realfft::num_complex::Complex32;
use realfft::num_traits::FromBytes;
use realfft::RealFftPlanner;
use vstd::arithmetic::power2::*;
use vstd::prelude::*;

verus! {

/// 255, the grey value of white.
pub const WHITE: u32 = 0x437f_0000;

/// 2.
pub const TWO: u32 = 0x4000_0000;

/// 3.
pub const THREE: u32 = 0x4040_0000;

/// 20, the widest distance between staff lines, in pixels.
pub const WIDEST_SPACING: u32 = 0x41a0_0000;

/// 0.8, how strong a harmonic is that doubles the distance.
pub const HARMONIC: u32 = 0x3f4c_cccd;

/// How dark a grey value is.
pub open spec fn darkness(p: u8) -> Single {
    Single { bits: WHITE }.minus(whole(p as int))
}

/// The first of the columns that are sampled.
pub open spec fn sample_left(img: &GrayImage) -> int {
    img.width as int / 5
}

/// The end of the columns that are sampled.
pub open spec fn sample_right(img: &GrayImage) -> int {
    img.width * 4 / 5
}

/// The darkness of the sampled pixels of a row.
pub open spec fn row_darkness(img: &GrayImage, y: int) -> Seq<Single> {
    Seq::new(
        (sample_right(img) - sample_left(img)) as nat,
        |i: int| darkness(img.pixel(sample_left(img) + i, y)),
    )
}

/// The mean darkness of a row.
pub open spec fn row_level(img: &GrayImage, y: int) -> Single {
    sum(row_darkness(img, y)).over(whole(sample_right(img) - sample_left(img)))
}

/// The mean darkness of every row.
pub open spec fn levels(img: &GrayImage) -> Seq<Single> {
    Seq::new(img.height as nat, |y: int| row_level(img, y))
}

/// Collapses a page horizontally into the mean darkness of its rows.
pub fn row_signal(img: &GrayImage) -> (signal: Vec<Single>)
    requires
        img.wf(),
    ensures
        signal@ == levels(img),
{
    let x0: u32 = img.width / 5;
    let x1: u32 = (img.width as u64 * 4 / 5) as u32;
    let mut signal: Vec<Single> = Vec::new();
    let mut y: u32 = 0;
    while y < img.height
        invariant
            img.wf(),
            x0 == sample_left(img),
            x1 == sample_right(img),
            x0 <= x1 <= img.width,
            y <= img.height,
            signal@.len() == y,
            forall|j: int| 0 <= j < y ==> #[trigger] signal@[j] == row_level(img, j),
        decreases img.height - y,
    {
        let ghost row = row_darkness(img, y as int);
        let mut total = Single { bits: EMPTY_SUM };
        let mut x: u32 = x0;
        assert(row.take(0) =~= Seq::<Single>::empty());
        while x < x1
            invariant
                img.wf(),
                x0 == sample_left(img),
                x1 == sample_right(img),
                x0 <= x <= x1 <= img.width,
                y < img.height,
                row == row_darkness(img, y as int),
                total == sum(row.take(x - x0)),
            decreases x1 - x,
        {
            let d = Single { bits: WHITE }.minus(Single::from_u32(img.get(x, y) as u32));
            proof {
                assert(row.take(x + 1 - x0).drop_last() =~= row.take(x - x0));
                assert(row.take(x + 1 - x0).last() == d);
            }
            total = total.plus(d);
            x = x + 1;
        }
        assert(row.take(x1 - x0) =~= row);
        signal.push(total.over(Single::from_u32(x1 - x0)));
        y = y + 1;
    }
    assert(signal@ =~= levels(img));
    signal
}

/// These are numbers, each with its real and its imaginary part, that the
/// Fourier transform of a signal can give on some machine.
pub uninterp spec fn transforms_to(signal: Seq<Single>, numbers: Seq<(Single, Single)>) -> bool;

/// This is a magnitude that a complex number can have on some machine.
pub uninterp spec fn measures(re: Single, im: Single, magnitude: Single) -> bool;

/// Calls `realfft::RealFftPlanner::plan_fft_forward` and the plan's
/// `process`. The transform fails only where a buffer has a wrong length,
/// which none has here, so there is always a spectrum; it has half the
/// signal's length and one more. How its numbers are rounded depends on the
/// vector unit of the machine: that they are some that the signal can give
/// is all that is claimed of them.
#[verifier::external_body]
fn transform(signal: &Vec<Single>) -> (r: Option<Vec<(Single, Single)>>)
    ensures
        r is Some,
        r->0@.len() == signal@.len() / 2 + 1,
        transforms_to(signal@, r->0@),
{
    let fft = RealFftPlanner::new().plan_fft_forward(signal.len());
    let mut out: Vec<Complex32> = fft.make_output_vec();
    let mut buf: Vec<_> =
        signal.iter().map(|s| FromBytes::from_ne_bytes(&s.bits.to_ne_bytes())).collect();
    fft.process(&mut buf, &mut out).ok()?;
    let parts = out.iter().map(|c| (c.re.to_bits(), c.im.to_bits()));
    Some(parts.map(|p| (Single { bits: p.0 }, Single { bits: p.1 })).collect())
}

/// Calls `Complex32::norm`. How the magnitude is rounded depends on the
/// machine: that it is one that the number can have is all that is claimed.
#[verifier::external_body]
fn magnitude(re: Single, im: Single) -> (r: Single)
    ensures
        measures(re, im, r),
{
    let re = FromBytes::from_ne_bytes(&re.bits.to_ne_bytes());
    let im = FromBytes::from_ne_bytes(&im.bits.to_ne_bytes());
    Single { bits: Complex32::new(re, im).norm().to_bits() }
}

/// These are magnitudes of a Fourier transform of a signal.
pub open spec fn is_spectrum(signal: Seq<Single>, mags: Seq<Single>) -> bool {
    &&& mags.len() == signal.len() / 2 + 1
    &&& exists|numbers: Seq<(Single, Single)>| #[trigger]
        transforms_to(signal, numbers) && numbers.len() == mags.len() && forall|i: int|
            0 <= i < mags.len() ==> measures(numbers[i].0, numbers[i].1, #[trigger] mags[i])
}

/// The magnitudes of the Fourier transform of a signal.
fn spectrum(signal: &Vec<Single>) -> (mags: Option<Vec<Single>>)
    ensures
        mags is Some,
        is_spectrum(signal@, mags->0@),
{
    let numbers = match transform(signal) {
        Some(numbers) => numbers,
        None => {
            return None;
        },
    };
    let mut mags: Vec<Single> = Vec::new();
    let mut i: usize = 0;
    while i < numbers.len()
        invariant
            i <= numbers@.len(),
            mags@.len() == i,
            forall|j: int|
                0 <= j < i ==> measures(numbers@[j].0, numbers@[j].1, #[trigger] mags@[j]),
        decreases numbers@.len() - i,
    {
        let (re, im) = numbers[i];
        mags.push(magnitude(re, im));
        i = i + 1;
    }
    Some(mags)
}

/// The first of the largest positive magnitudes among the first `k`, and
/// its place.
pub open spec fn strongest(mags: Seq<Single>, k: int) -> (int, Single)
    decreases k,
{
    if k <= 0 {
        (0, Single { bits: 0 })
    } else {
        let best = strongest(mags, k - 1);
        if best.1.lt(mags[k - 1]) {
            (k - 1, mags[k - 1])
        } else {
            best
        }
    }
}

/// The lowest frequency that staff lines can have in a page of `n` rows.
pub open spec fn lowest_bin(n: int) -> int {
    if n / 20 > 1 {
        n / 20
    } else {
        1
    }
}

/// The highest frequency that staff lines can have.
pub open spec fn highest_bin(n: int, bins: int) -> int {
    if n / 8 < bins - 1 {
        n / 8
    } else {
        bins - 1
    }
}

/// The distance between staff lines in a page of `n` rows whose spectrum
/// has these magnitudes: that of the strongest frequency, if it stands out
/// threefold; twice as much where its harmonic is strong too and the result
/// is not too wide.
pub open spec fn spacing_of(n: int, mags: Seq<Single>) -> Option<Single> {
    let lo = lowest_bin(n);
    let hi = highest_bin(n, mags.len() as int);
    if lo >= hi {
        None
    } else {
        let band = mags.subrange(lo, hi + 1);
        let (i, best) = strongest(band, band.len() as int);
        let mean = sum(band).over(whole(hi - lo + 1));
        let bin = i + lo;
        let spacing = whole(n).over(whole(bin));
        let doubled = spacing.times(Single { bits: TWO });
        if best.lt(mean.times(Single { bits: THREE })) {
            None
        } else if 2 * bin < mags.len() && best.times(Single { bits: HARMONIC }).lt(mags[2 * bin])
            && doubled.le(Single { bits: WIDEST_SPACING }) {
            Some(doubled)
        } else {
            Some(spacing)
        }
    }
}

/// Picks the distance between staff lines out of a spectrum.
pub fn pick_spacing(n: usize, mags: &Vec<Single>) -> (r: Option<Single>)
    requires
        mags@.len() > 0,
    ensures
        r == spacing_of(n as int, mags@),
{
    let lo: usize = if n / 20 > 1 {
        n / 20
    } else {
        1
    };
    let hi: usize = if n / 8 < mags.len() - 1 {
        n / 8
    } else {
        mags.len() - 1
    };
    if lo >= hi {
        return None;
    }
    let ghost band = mags@.subrange(lo as int, hi + 1);
    let mut best_i: usize = 0;
    let mut best = Single { bits: 0 };
    let mut i: usize = lo;
    while i <= hi
        invariant
            lo <= i <= hi + 1,
            lo < hi < mags@.len() == mags.len(),
            band == mags@.subrange(lo as int, hi + 1),
            (best_i as int, best) == strongest(band, i - lo),
            best_i <= hi - lo,
        decreases hi + 1 - i,
    {
        if best.lt(mags[i]) {
            best_i = i - lo;
            best = mags[i];
        }
        i = i + 1;
    }
    let mean = sum_range(mags, lo, hi + 1).over(Single::from_usize(hi - lo + 1));
    if best.lt(mean.times(Single { bits: THREE })) {
        return None;
    }
    let bin: usize = best_i + lo;
    let spacing = Single::from_usize(n).over(Single::from_usize(bin));
    let harmonic: usize = bin * 2;
    if harmonic < mags.len() && best.times(Single { bits: HARMONIC }).lt(mags[harmonic]) {
        let doubled = spacing.times(Single { bits: TWO });
        if doubled.le(Single { bits: WIDEST_SPACING }) {
            return Some(doubled);
        }
    }
    Some(spacing)
}

/// Finds the distance between staff lines in the darkness of rows.
///
/// What is found is what `pick_spacing` finds in a spectrum of the signal.
pub fn staff_line_spacing(signal: &Vec<Single>) -> (r: Option<Single>)
    ensures
        exists|mags: Seq<Single>|
            #[trigger] is_spectrum(signal@, mags) && r == spacing_of(signal@.len() as int, mags),
{
    match spectrum(signal) {
        Some(mags) => pick_spacing(signal.len(), &mags),
        None => None,
    }
}

/// A distance that is found lies between 1 and 128 pixels.
pub proof fn lemma_spacing_range(n: int, mags: Seq<Single>)
    requires
        0 <= n <= u32::MAX,
        spacing_of(n, mags) is Some,
    ensures
        ({
            let s = spacing_of(n, mags)->0;
            &&& s.finite()
            &&& !s.negative()
            &&& power(0) <= s.rank() <= power(7)
        }),
{
    let lo = lowest_bin(n);
    let hi = highest_bin(n, mags.len() as int);
    let band = mags.subrange(lo, hi + 1);
    lemma_strongest_place(band, band.len() as int);
    let bin = strongest(band, band.len() as int).0 + lo;
    assert(n <= 42 * bin);
    assert(bin <= n);
    let a = whole(n);
    let b = whole(bin);
    lemma_whole_range(n);
    lemma_whole_range(bin);
    lemma_whole_mono(bin, n);
    let one = one_units();
    let ua = units(a.mag());
    let ub = units(b.mag());
    if b.mag() < a.mag() {
        lemma_units_mono(b.mag(), a.mag());
    }
    lemma_power(0);
    lemma_power(7);
    lemma_power(8);
    lemma_power(1);
    lemma_pow2_adds(7, 149);
    lemma_pow2_adds(8, 149);
    lemma_pow2_adds(1, 149);
    lemma2_to64();
    lemma_pow2_pos(149);
    assert(one * ub <= ua * one) by (nonlinear_arith)
        requires
            ub <= ua,
            one > 0,
    ;
    assert(ua <= 128 * ub) by (nonlinear_arith)
        requires
            ua <= 2 * (n * one),
            3 * ub >= 2 * (bin * one),
            n <= 42 * bin,
            one > 0,
            bin > 0,
    ;
    assert(ua * one <= (128 * one) * ub) by (nonlinear_arith)
        requires
            ua <= 128 * ub,
            one > 0,
    ;
    lemma_over_between(a, b, power(0), power(7));
    let s = a.over(b);
    let two = Single { bits: TWO };
    assert(two.mag() == power(1));
    if power(0) < s.mag() {
        lemma_units_mono(power(0), s.mag());
    }
    if s.mag() < power(7) {
        lemma_units_mono(s.mag(), power(7));
    }
    let us = units(s.mag());
    assert(one * one <= us * (2 * one) <= (256 * one) * one) by (nonlinear_arith)
        requires
            one <= us <= 128 * one,
            one > 0,
    ;
    lemma_times_between(s, two, power(0), power(8));
}

proof fn lemma_strongest_place(mags: Seq<Single>, k: int)
    ensures
        0 <= strongest(mags, k).0,
        k > 0 ==> strongest(mags, k).0 < k,
    decreases k,
{
    if k > 0 {
        lemma_strongest_place(mags, k - 1);
    }
}

} // verus!

use vstd::prelude::*;
use vstd::arithmetic::power2::{pow2, lemma_pow2_pos};
use vstd::arithmetic::div_mod::{lemma_fundamental_div_mod, lemma_fundamental_div_mod_converse};
use crate::error::SpectrumError;
use crate::window::{factor_of, ScaleFactor, Window};
use crate::transform::{is_power_of_two, all_equal, keeps_pair, transform_in_place, is_function, transform_of};

verus! {

/// A frequency in hertz, held exactly: `num / den`, negated when `negative`.
#[derive(Clone, Copy, Debug, PartialEq, Eq, Structural)]
pub struct Frequency {
    pub negative: bool,
    pub num: u128,
    pub den: u64,
}

/// The frequency-domain image of one analysis window: `width` buckets, bucket
/// `0` the mean, `1..width/2` the positive frequencies ascending, `width/2`
/// the Nyquist frequency, and the rest their negative mirror.
#[derive(Debug)]
pub struct Spectrum<B> {
    width: usize,
    buckets: Vec<B>,
    sample_rate: u32,
}

/// The function `g` gives one result for each argument.
pub open spec fn is_map<A, R, G: Fn(A) -> R>(g: G) -> bool {
    forall|x: A, r1: R, r2: R|
        #![trigger g.ensures((x,), r1), g.ensures((x,), r2)]
        g.ensures((x,), r1) && g.ensures((x,), r2) ==> r1 == r2
}

/// What `g` gives for `x`.
pub open spec fn result_of<A, R, G: Fn(A) -> R>(g: G, x: A) -> R {
    choose|r: R| #[trigger] g.ensures((x,), r)
}

/// `g` applied to each item of `s`.
pub open spec fn mapped<A, R, G: Fn(A) -> R>(s: Seq<A>, g: G) -> Seq<R> {
    Seq::new(s.len(), |i: int| result_of(g, s[i]))
}

/// The comparison gives one result for each pair of buckets.
pub open spec fn is_comparison<F: Fn(usize, usize) -> Result<std::cmp::Ordering, SpectrumError>>(cmp: F) -> bool {
    forall|i: usize, j: usize, r1: Result<std::cmp::Ordering, SpectrumError>, r2: Result<std::cmp::Ordering, SpectrumError>|
        #![trigger cmp.ensures((i, j), r1), cmp.ensures((i, j), r2)]
        cmp.ensures((i, j), r1) && cmp.ensures((i, j), r2) ==> r1 == r2
}

/// What the comparison gives for buckets `i` and `j`.
pub open spec fn order_of<F: Fn(usize, usize) -> Result<std::cmp::Ordering, SpectrumError>>(
    cmp: F,
    i: usize,
    j: usize,
) -> Result<std::cmp::Ordering, SpectrumError> {
    choose|r: Result<std::cmp::Ordering, SpectrumError>| #[trigger] cmp.ensures((i, j), r)
}

/// The greatest of buckets `0..n` under `cmp`, the last one among equals, as
/// a left-to-right scan finds it; the first error of the comparison, if any.
pub open spec fn greatest_bucket<F: Fn(usize, usize) -> Result<std::cmp::Ordering, SpectrumError>>(
    cmp: F,
    n: nat,
) -> Result<usize, SpectrumError>
    decreases n,
{
    if n <= 1 {
        Ok(0)
    } else {
        match greatest_bucket(cmp, (n - 1) as nat) {
            Err(e) => Err(e),
            Ok(best) => match order_of(cmp, best, (n - 1) as usize) {
                Err(e) => Err(e),
                Ok(std::cmp::Ordering::Greater) => Ok(best),
                Ok(_) => Ok((n - 1) as usize),
            },
        }
    }
}

proof fn lemma_greatest_bucket_err<F: Fn(usize, usize) -> Result<std::cmp::Ordering, SpectrumError>>(
    cmp: F,
    k: nat,
    n: nat,
)
    requires
        k <= n,
        greatest_bucket(cmp, k) is Err,
    ensures
        greatest_bucket(cmp, n) == greatest_bucket(cmp, k),
    decreases n - k,
{
    if k < n {
        lemma_greatest_bucket_err(cmp, k, (n - 1) as nat);
    }
}

/// The function `apply` gives one result for each sample and scale factor.
pub open spec fn is_scaling<S, B, A: Fn(S, ScaleFactor) -> B>(apply: A) -> bool {
    forall|x: S, f: ScaleFactor, r1: B, r2: B|
        #![trigger apply.ensures((x, f), r1), apply.ensures((x, f), r2)]
        apply.ensures((x, f), r1) && apply.ensures((x, f), r2) ==> r1 == r2
}

/// What `apply` gives for sample `x` and scale factor `f`.
pub open spec fn scaled<S, B, A: Fn(S, ScaleFactor) -> B>(apply: A, x: S, f: ScaleFactor) -> B {
    choose|r: B| #[trigger] apply.ensures((x, f), r)
}

/// Each sample of `s` scaled by its factor of `window`, a window as long as `s`.
pub open spec fn windowed<S, B, A: Fn(S, ScaleFactor) -> B>(s: Seq<S>, window: Window, apply: A) -> Seq<B> {
    Seq::new(s.len(), |i: int| scaled(apply, s[i], factor_of(window, i as nat, s.len())))
}

/// `s` followed by zeros up to `width` items.
pub open spec fn padded<B>(s: Seq<B>, width: nat, zero: B) -> Seq<B> {
    Seq::new(width, |i: int| if i < s.len() { s[i] } else { zero })
}

/// The buckets of a spectrum shifted by `k`: `k` zeros, buckets
/// `[0, width/2 - k)`, buckets `[width/2 + k, width)`, then `k` zeros.
pub open spec fn shifted<B>(s: Seq<B>, k: nat, zero: B) -> Seq<B> {
    let w = s.len() as int;
    let h = w / 2;
    Seq::new(
        s.len(),
        |i: int|
            if i < k || i >= w - k {
                zero
            } else if i < h {
                s[i - k]
            } else {
                s[i + k]
            },
    )
}

/// The frequency of bucket `b`: `b · rate / width` up to the Nyquist bucket,
/// `-(width - b) · rate / width` above it.
pub open spec fn freq_of_bucket(b: nat, width: nat, rate: nat) -> Frequency {
    let neg = b > width / 2;
    let dist: int = if neg { width - b } else { b as int };
    Frequency { negative: neg, num: (dist * rate) as u128, den: width as u64 }
}

/// `hz · width / rate`, rounded to the nearest integer, halves upwards.
pub open spec fn nearest_bucket(hz: nat, width: nat, rate: nat) -> nat {
    ((2 * hz * width + rate) / (2 * rate)) as nat
}

impl<B> Spectrum<B> {
    /// The buckets.
    pub closed spec fn spec_buckets(&self) -> Seq<B> {
        self.buckets@
    }

    pub closed spec fn spec_width(&self) -> nat {
        self.width as nat
    }

    /// Samples per second of the analysed signal.
    pub closed spec fn spec_sample_rate(&self) -> nat {
        self.sample_rate as nat
    }

    /// One bucket per unit of width, a power-of-two width, and a positive
    /// sample rate.
    pub closed spec fn wf(&self) -> bool {
        &&& self.buckets.len() == self.width
        &&& is_power_of_two(self.width as nat)
        &&& self.sample_rate > 0
    }

    /// What well-formedness gives a caller.
    pub proof fn lemma_wf(&self)
        requires
            self.wf(),
        ensures
            self.spec_buckets().len() == self.spec_width(),
            is_power_of_two(self.spec_width()),
            self.spec_width() >= 1,
            self.spec_sample_rate() > 0,
    {
        let e = choose|e: nat| pow2(e) == self.width;
        lemma_pow2_pos(e);
    }

    pub fn width(&self) -> (r: usize)
        ensures
            r == self.spec_width(),
    {
        self.width
    }

    pub fn buckets(&self) -> (r: &[B])
        ensures
            r@ == self.spec_buckets(),
    {
        self.buckets.as_slice()
    }

    pub fn sample_rate(&self) -> (r: u32)
        ensures
            r == self.spec_sample_rate(),
    {
        self.sample_rate
    }

    /// The spectrum of a window whose samples have already been scaled by a
    /// window function: the samples are padded with `zero` up to `fft_width`
    /// items and transformed with `butterfly` (see `transform_in_place`); for a
    /// butterfly that gives one result for each input the buckets are exactly
    /// `transform_of` the padded samples.
    /// Refused when the window holds more than `fft_width` samples, or else
    /// when `fft_width` is not a power of two.
    pub fn analyze<F: Fn(B, B, usize, usize) -> (B, B)>(
        windowed: Vec<B>,
        fft_width: usize,
        sample_rate: u32,
        zero: B,
        butterfly: F,
    ) -> (r: Result<Spectrum<B>, SpectrumError>)
        where
            B: Copy,
        requires
            sample_rate > 0,
            forall|a: B, b: B, k: usize, len: usize| #[trigger] butterfly.requires((a, b, k, len)),
        ensures
            windowed.len() > fft_width ==> r == Err::<Spectrum<B>, SpectrumError>(SpectrumError::TooManySamples),
            windowed.len() <= fft_width && !is_power_of_two(fft_width as nat)
                ==> r == Err::<Spectrum<B>, SpectrumError>(SpectrumError::WidthNotPowerOfTwo),
            windowed.len() <= fft_width && is_power_of_two(fft_width as nat) ==> match r {
                Ok(sp) => {
                    &&& sp.wf()
                    &&& sp.spec_width() == fft_width
                    &&& sp.spec_buckets().len() == fft_width
                    &&& sp.spec_sample_rate() == sample_rate
                    &&& is_function(butterfly) ==> sp.spec_buckets()
                        == transform_of(padded(windowed@, fft_width as nat, zero), butterfly)
                    &&& forall|z: B|
                        all_equal(padded(windowed@, fft_width as nat, zero), z) && keeps_pair(butterfly, z)
                            ==> #[trigger] all_equal(sp.spec_buckets(), z)
                },
                Err(_) => false,
            },
    {
        if windowed.len() > fft_width {
            return Err(SpectrumError::TooManySamples);
        }
        let mut buckets = pad(windowed, fft_width, zero);
        match transform_in_place(&mut buckets, butterfly) {
            Ok(()) => Ok(Spectrum { width: fft_width, buckets, sample_rate }),
            Err(e) => Err(e),
        }
    }

    /// The spectrum of a window of samples: each sample is scaled by its
    /// factor of `window` with `apply` (a window as long as the samples), and
    /// the result is analysed as `analyze` does it. Refused when there are
    /// more samples than `fft_width`, or else when `fft_width` is not a power
    /// of two.
    pub fn spectrum<S: Copy, A: Fn(S, ScaleFactor) -> B, F: Fn(B, B, usize, usize) -> (B, B)>(
        samples: &Vec<S>,
        window: Window,
        fft_width: usize,
        sample_rate: u32,
        zero: B,
        apply: A,
        butterfly: F,
    ) -> (r: Result<Spectrum<B>, SpectrumError>)
        where
            B: Copy,
        requires
            sample_rate > 0,
            forall|x: S, f: ScaleFactor| #[trigger] apply.requires((x, f)),
            forall|a: B, b: B, k: usize, len: usize| #[trigger] butterfly.requires((a, b, k, len)),
        ensures
            samples.len() > fft_width ==> r == Err::<Spectrum<B>, SpectrumError>(SpectrumError::TooManySamples),
            samples.len() <= fft_width && !is_power_of_two(fft_width as nat)
                ==> r == Err::<Spectrum<B>, SpectrumError>(SpectrumError::WidthNotPowerOfTwo),
            samples.len() <= fft_width && is_power_of_two(fft_width as nat) ==> match r {
                Ok(sp) => {
                    &&& sp.wf()
                    &&& sp.spec_width() == fft_width
                    &&& sp.spec_buckets().len() == fft_width
                    &&& sp.spec_sample_rate() == sample_rate
                    &&& is_scaling(apply) && is_function(butterfly) ==> sp.spec_buckets()
                        == transform_of(padded(windowed(samples@, window, apply), fft_width as nat, zero), butterfly)
                },
                Err(_) => false,
            },
    {
        if samples.len() > fft_width {
            return Err(SpectrumError::TooManySamples);
        }
        let n = samples.len();
        let mut factors = window.into_iter(n);
        let mut scaled_samples: Vec<B> = Vec::with_capacity(n);
        let mut i: usize = 0;
        while i < n
            invariant
                n == samples.len(),
                i <= n,
                scaled_samples.len() == i,
                factors.window() == window,
                factors.width() == n,
                factors.position() == i,
                forall|x: S, f: ScaleFactor| #[trigger] apply.requires((x, f)),
                is_scaling(apply) ==> forall|j: int|
                    0 <= j < i ==> #[trigger] scaled_samples@[j] == scaled(apply, samples@[j], factor_of(window, j as nat, n as nat)),
            decreases n - i,
        {
            let f = factors.next().unwrap();
            let y = apply(samples[i], f);
            proof {
                if is_scaling(apply) {
                    let c = scaled(apply, samples@[i as int], f);
                    assert(apply.ensures((samples@[i as int], f), c));
                }
            }
            scaled_samples.push(y);
            i = i + 1;
        }
        proof {
            if is_scaling(apply) {
                assert(scaled_samples@ =~= windowed(samples@, window, apply));
            }
        }
        Self::analyze(scaled_samples, fft_width, sample_rate, zero, butterfly)
    }

    /// A new spectrum of the same width: `shift` zero buckets, buckets
    /// `[0, width/2 - shift)`, buckets `[width/2 + shift, width)`, then `shift`
    /// zero buckets. This removes the `shift` lowest frequencies on both sides
    /// of the spectrum and keeps it conjugate-symmetric; a shift of at least
    /// `width/2` leaves only zeros.
    pub fn shift(&self, shift: usize, zero: B) -> (r: Spectrum<B>)
        where
            B: Copy,
        requires
            self.wf(),
        ensures
            r.wf(),
            r.spec_width() == self.spec_width(),
            r.spec_buckets().len() == self.spec_width(),
            r.spec_sample_rate() == self.spec_sample_rate(),
            r.spec_buckets() == shifted(self.spec_buckets(), shift as nat, zero),
    {
        let w = self.width;
        let h = w / 2;
        let mut out: Vec<B> = Vec::with_capacity(w);
        let mut i: usize = 0;
        while i < w
            invariant
                w == self.width == self.buckets.len(),
                h == w / 2,
                i <= w,
                out.len() == i,
                forall|j: int| 0 <= j < i ==> #[trigger] out@[j] == shifted(self.buckets@, shift as nat, zero)[j],
            decreases w - i,
        {
            let item = if i < shift || i >= w - shift {
                zero
            } else if i < h {
                self.buckets[i - shift]
            } else {
                self.buckets[i + shift]
            };
            out.push(item);
            i = i + 1;
        }
        proof {
            assert(out@ =~= shifted(self.buckets@, shift as nat, zero));
        }
        Spectrum { width: w, buckets: out, sample_rate: self.sample_rate }
    }
}

impl<B: Copy> Spectrum<B> {
    /// The signal that the spectrum describes, `width` samples long: each
    /// bucket is passed through `swap` (which exchanges its real and imaginary
    /// parts), the forward transform is applied, and each result is passed
    /// through `finish` (which takes its imaginary part over `width`). Those
    /// two steps turn the forward transform into the inverse one.
    pub fn waveform<S, G: Fn(B) -> B, F: Fn(B, B, usize, usize) -> (B, B), H: Fn(B) -> S>(
        &self,
        swap: G,
        butterfly: F,
        finish: H,
    ) -> (r: Vec<S>)
        requires
            self.wf(),
            forall|x: B| #[trigger] swap.requires((x,)),
            forall|a: B, b: B, k: usize, len: usize| #[trigger] butterfly.requires((a, b, k, len)),
            forall|x: B| #[trigger] finish.requires((x,)),
        ensures
            r.len() == self.spec_width(),
            is_map(swap) && is_function(butterfly) && is_map(finish) ==> r@ == mapped(
                transform_of(mapped(self.spec_buckets(), swap), butterfly),
                finish,
            ),
    {
        let mut buf = map_items(&self.buckets, swap);
        let res = transform_in_place(&mut buf, butterfly);
        assert(res is Ok);
        map_items(&buf, finish)
    }
}

impl<B> Spectrum<B> {
    /// The bucket of greatest amplitude among buckets `0..=width/2`, the last
    /// one among equals, where `compare(i, j)` orders the amplitudes of
    /// buckets `i` and `j`; the first error that `compare` gives, if any.
    pub fn main_frequency<F: Fn(usize, usize) -> Result<std::cmp::Ordering, SpectrumError>>(
        &self,
        compare: F,
    ) -> (r: Result<usize, SpectrumError>)
        requires
            self.wf(),
            forall|i: usize, j: usize| #[trigger] compare.requires((i, j)),
        ensures
            r matches Ok(b) ==> 2 * b <= self.spec_width(),
            is_comparison(compare) ==> r == greatest_bucket(compare, self.spec_width() / 2 + 1),
    {
        let count = self.width / 2 + 1;
        let mut best: usize = 0;
        let mut i: usize = 1;
        while i < count
            invariant
                count == self.width / 2 + 1,
                1 <= i <= count,
                best < i,
                forall|i: usize, j: usize| #[trigger] compare.requires((i, j)),
                is_comparison(compare) ==> greatest_bucket(compare, i as nat) == Ok::<usize, SpectrumError>(best),
            decreases count - i,
        {
            let o = compare(best, i);
            proof {
                if is_comparison(compare) {
                    let c = order_of(compare, best, i);
                    assert(compare.ensures((best, i), c));
                    assert(c == o);
                }
            }
            match o {
                Err(e) => {
                    proof {
                        if is_comparison(compare) {
                            lemma_greatest_bucket_err(compare, (i + 1) as nat, count as nat);
                        }
                    }
                    return Err(e);
                },
                Ok(std::cmp::Ordering::Greater) => {},
                Ok(_) => {
                    best = i;
                },
            }
            i = i + 1;
        }
        Ok(best)
    }

    /// The width of one bucket: `sample_rate / width` hertz.
    pub fn freq_resolution(&self) -> (r: Frequency)
        requires
            self.wf(),
        ensures
            r == (Frequency {
                negative: false,
                num: self.spec_sample_rate() as u128,
                den: self.spec_width() as u64,
            }),
    {
        Frequency { negative: false, num: self.sample_rate as u128, den: self.width as u64 }
    }

    /// The frequency of bucket `bucket`, negative above the Nyquist bucket.
    pub fn freq_from_bucket(&self, bucket: usize) -> (r: Frequency)
        requires
            self.wf(),
            bucket <= self.spec_width(),
        ensures
            r == freq_of_bucket(bucket as nat, self.spec_width(), self.spec_sample_rate()),
    {
        let neg = bucket > self.width / 2;
        let dist: usize = if neg { self.width - bucket } else { bucket };
        assert(dist as u128 * self.sample_rate as u128 <= u64::MAX as u128 * u32::MAX as u128) by (nonlinear_arith)
            requires dist <= u64::MAX, self.sample_rate <= u32::MAX;
        Frequency { negative: neg, num: dist as u128 * self.sample_rate as u128, den: self.width as u64 }
    }

    /// The bucket nearest to `hz` hertz, `hz · width / sample_rate` rounded,
    /// halves upwards. Not clamped to the spectrum: a frequency above the
    /// Nyquist frequency gives a bucket past `width / 2`, and one past the
    /// range of `usize` gives `usize::MAX`.
    pub fn bucket_from_freq(&self, hz: u64) -> (r: usize)
        requires
            self.wf(),
        ensures
            nearest_bucket(hz as nat, self.spec_width(), self.spec_sample_rate()) <= usize::MAX
                ==> r == nearest_bucket(hz as nat, self.spec_width(), self.spec_sample_rate()),
            nearest_bucket(hz as nat, self.spec_width(), self.spec_sample_rate()) > usize::MAX
                ==> r == usize::MAX,
    {
        let rate = self.sample_rate as u128;
        let w = self.width as u128;
        assert(hz as u128 * w <= u64::MAX as u128 * u64::MAX as u128) by (nonlinear_arith)
            requires hz <= u64::MAX, w <= u64::MAX;
        let prod: u128 = hz as u128 * w;
        let q: u128 = prod / rate;
        let rem: u128 = prod % rate;
        proof {
            lemma_fundamental_div_mod(prod as int, rate as int);
        }
        let rounded: u128 = if rem >= rate - rem {
            assert(q + 1 <= u128::MAX) by (nonlinear_arith)
                requires prod == rate * q + rem, rem >= 1, rate >= 2, prod <= u128::MAX;
            proof {
                assert(2 * prod + rate == (q + 1) * (2 * rate) + (2 * rem - rate)) by (nonlinear_arith)
                    requires prod == rate * q + rem;
                lemma_fundamental_div_mod_converse(
                    (2 * prod + rate) as int, (2 * rate) as int, (q + 1) as int, (2 * rem - rate) as int);
            }
            q + 1
        } else {
            proof {
                assert(2 * prod + rate == q * (2 * rate) + (2 * rem + rate)) by (nonlinear_arith)
                    requires prod == rate * q + rem;
                lemma_fundamental_div_mod_converse(
                    (2 * prod + rate) as int, (2 * rate) as int, q as int, (2 * rem + rate) as int);
            }
            q
        };
        assert(2 * (hz as nat) * (self.width as nat) == 2 * prod) by (nonlinear_arith)
            requires prod == hz as u128 * w, w == self.width;
        if rounded > usize::MAX as u128 {
            usize::MAX
        } else {
            rounded as usize
        }
    }
}

/// The order of two amplitudes in which a NaN loses to any other value:
/// `ord` is their partial comparison and the flags say which is NaN. Two NaN
/// values are not ordered, and a missing partial comparison between two
/// values that are not NaN is refused as well.
pub fn amplitude_order(ord: Option<std::cmp::Ordering>, a_is_nan: bool, b_is_nan: bool) -> (r: Result<
    std::cmp::Ordering,
    SpectrumError,
>)
    ensures
        ord matches Some(o) ==> r == Ok::<std::cmp::Ordering, SpectrumError>(o),
        ord is None && !a_is_nan && b_is_nan ==> r == Ok::<std::cmp::Ordering, SpectrumError>(std::cmp::Ordering::Greater),
        ord is None && a_is_nan && !b_is_nan ==> r == Ok::<std::cmp::Ordering, SpectrumError>(std::cmp::Ordering::Less),
        ord is None && a_is_nan == b_is_nan ==> r == Err::<std::cmp::Ordering, SpectrumError>(SpectrumError::BothNaN),
{
    match ord {
        Some(o) => Ok(o),
        None => {
            if a_is_nan && b_is_nan {
                Err(SpectrumError::BothNaN)
            } else if b_is_nan {
                Ok(std::cmp::Ordering::Greater)
            } else if a_is_nan {
                Ok(std::cmp::Ordering::Less)
            } else {
                Err(SpectrumError::BothNaN)
            }
        },
    }
}

/// Shifting by zero buckets keeps every bucket.
pub proof fn lemma_shift_zero<B>(s: Seq<B>, zero: B)
    ensures
        shifted(s, 0, zero) == s,
{
    assert(shifted(s, 0, zero) =~= s);
}

/// Shifting a spectrum by half its width or more leaves only zero buckets,
/// but for a shift of zero on a single bucket, which keeps it.
pub proof fn lemma_shift_past_half<B>(s: Seq<B>, k: nat, zero: B)
    requires
        2 * k >= s.len(),
        k > 0 || s.len() != 1,
    ensures
        shifted(s, k, zero).len() == s.len(),
        all_equal(shifted(s, k, zero), zero),
{
}

/// For a frequency below the Nyquist frequency, the bucket nearest to it lies
/// in the positive half, and that bucket's frequency is within one bucket
/// width of it: `|b · rate - hz · width| <= rate`.
pub proof fn lemma_bucket_round_trip<B>(sp: Spectrum<B>, hz: nat)
    requires
        sp.wf(),
        2 * hz < sp.spec_sample_rate(),
    ensures
        ({
            let w = sp.spec_width();
            let rate = sp.spec_sample_rate();
            let b = nearest_bucket(hz, w, rate);
            let f = freq_of_bucket(b, w, rate);
            &&& 2 * b <= w
            &&& !f.negative
            &&& f.den == w
            &&& f.num <= hz * w + rate
            &&& hz * w <= f.num + rate
        }),
{
    let w = sp.spec_width();
    let rate = sp.spec_sample_rate();
    let x = hz * w;
    let b = nearest_bucket(hz, w, rate);
    let e = choose|e: nat| pow2(e) == w;
    lemma_pow2_pos(e);
    assert(2 * hz * w == 2 * x) by (nonlinear_arith)
        requires x == hz * w;
    lemma_fundamental_div_mod((2 * x + rate) as int, (2 * rate) as int);
    let rm = (2 * x + rate) % (2 * rate);
    assert(2 * x + rate == 2 * rate * b + rm);
    assert(0 <= rm < 2 * rate);
    assert(2 * b <= w) by (nonlinear_arith)
        requires 2 * x + rate == 2 * rate * b + rm, rm >= 0, x == hz * w, 2 * hz < rate, w >= 1, b >= 0;
    assert(b * rate <= x + rate && x <= b * rate + rate) by (nonlinear_arith)
        requires 2 * x + rate == 2 * rate * b + rm, 0 <= rm < 2 * rate, rate > 0;
    assert(w <= u64::MAX);
    assert(b * rate <= u128::MAX) by (nonlinear_arith)
        requires 2 * b <= w, w <= u64::MAX, rate <= u32::MAX;
}

/// `g` applied to each item of `v`.
fn map_items<A: Copy, R, G: Fn(A) -> R>(v: &Vec<A>, g: G) -> (r: Vec<R>)
    requires
        forall|x: A| #[trigger] g.requires((x,)),
    ensures
        r.len() == v.len(),
        is_map(g) ==> r@ == mapped(v@, g),
{
    let mut out: Vec<R> = Vec::with_capacity(v.len());
    let mut i: usize = 0;
    while i < v.len()
        invariant
            i <= v.len(),
            out.len() == i,
            forall|x: A| #[trigger] g.requires((x,)),
            is_map(g) ==> forall|j: int| 0 <= j < i ==> #[trigger] out@[j] == result_of(g, v@[j]),
        decreases v.len() - i,
    {
        let y = g(v[i]);
        proof {
            if is_map(g) {
                let c = result_of(g, v@[i as int]);
                assert(g.ensures((v@[i as int],), c));
            }
        }
        out.push(y);
        i = i + 1;
    }
    proof {
        if is_map(g) {
            assert(out@ =~= mapped(v@, g));
        }
    }
    out
}

/// `s` followed by `zero` up to `width` items.
fn pad<B: Copy>(s: Vec<B>, width: usize, zero: B) -> (r: Vec<B>)
    requires
        s.len() <= width,
    ensures
        r@ == padded(s@, width as nat, zero),
{
    let mut out = s;
    while out.len() < width
        invariant
            s.len() <= out.len() <= width,
            forall|j: int| 0 <= j < out.len() ==> #[trigger] out@[j] == padded(s@, width as nat, zero)[j],
        decreases width - out.len(),
    {
        out.push(zero);
    }
    proof {
        assert(out@ =~= padded(s@, width as nat, zero));
    }
    out
}

} // verus!

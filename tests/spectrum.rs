use num_complex::Complex;
use spectrum::{amplitude_order, Frequency, ScaleFactor, Spectrum, SpectrumError, Window};
use std::cmp::Ordering;

type C = Complex<f32>;

const ZERO: C = Complex { re: 0.0, im: 0.0 };

fn butterfly(a: C, b: C, k: usize, len: usize) -> (C, C) {
    let w = Complex::from_polar(1.0, -std::f32::consts::TAU * k as f32 / len as f32);
    (a + w * b, a - w * b)
}

fn scale(f: ScaleFactor) -> f32 {
    let turn = f.index as f32 / f.width as f32;
    (f.base as f32 - f.cos_coeff as f32 * (std::f32::consts::TAU * turn).cos()) / f.den as f32
}

fn apply(sample: f32, f: ScaleFactor) -> C {
    Complex::new(sample * scale(f), 0.0)
}

fn analyze(samples: &[f32], window: Window, width: usize, rate: u32) -> Result<Spectrum<C>, SpectrumError> {
    Spectrum::spectrum(&samples.to_vec(), window, width, rate, ZERO, apply, butterfly)
}

fn waveform(sp: &Spectrum<C>) -> Vec<f32> {
    let width = sp.width() as f32;
    sp.waveform(|c: C| Complex::new(c.im, c.re), butterfly, move |c: C| c.im / width)
}

fn main_frequency(sp: &Spectrum<C>) -> Result<usize, SpectrumError> {
    let amps: Vec<f32> = sp.buckets().iter().take(sp.width() / 2 + 1).map(|c| c.norm()).collect();
    sp.main_frequency(|i: usize, j: usize| amplitude_order(amps[i].partial_cmp(&amps[j]), amps[i].is_nan(), amps[j].is_nan()))
}

fn to_f64(f: Frequency) -> f64 {
    let v = f.num as f64 / f.den as f64;
    if f.negative {
        -v
    } else {
        v
    }
}

fn sine(freq: f32, rate: u32, n: usize) -> Vec<f32> {
    (0..n).map(|i| (std::f32::consts::TAU * freq * i as f32 / rate as f32).sin()).collect()
}

#[test]
fn analyze_refuses_bad_shapes() {
    let samples = vec![1.0f32; 10];
    assert_eq!(analyze(&samples, Window::Hann, 8, 100).unwrap_err(), SpectrumError::TooManySamples);
    assert_eq!(analyze(&samples, Window::Hann, 12, 100).unwrap_err(), SpectrumError::WidthNotPowerOfTwo);
    assert_eq!(analyze(&[], Window::Hann, 0, 100).unwrap_err(), SpectrumError::WidthNotPowerOfTwo);
    assert!(analyze(&samples, Window::Hann, 16, 100).is_ok());
}

#[test]
fn analyze_pads_and_keeps_rate() {
    let sp = analyze(&[1.0, 1.0], Window::Rectangular, 4, 8000).unwrap();
    assert_eq!(sp.width(), 4);
    assert_eq!(sp.sample_rate(), 8000);
    assert_eq!(sp.buckets().len(), 4);
    // [1, 1, 0, 0] -> [2, 1-i, 0, 1+i]
    let expected = [Complex::new(2.0, 0.0), Complex::new(1.0, -1.0), ZERO, Complex::new(1.0, 1.0)];
    for (a, b) in sp.buckets().iter().zip(expected.iter()) {
        assert!((a - b).norm() < 1e-6);
    }
}

#[test]
fn zero_window_gives_zero_spectrum() {
    let sp = analyze(&[0.0; 5], Window::Hamming, 8, 44100).unwrap();
    assert!(sp.buckets().iter().all(|c| *c == ZERO));
}

#[test]
fn round_trip_reproduces_padded_samples() {
    let samples: Vec<f32> = (0..20).map(|i| ((i * 7 % 11) as f32 - 5.0) / 3.0).collect();
    let sp = analyze(&samples, Window::Rectangular, 32, 1000).unwrap();
    let back = waveform(&sp);
    assert_eq!(back.len(), 32);
    for (i, v) in back.iter().enumerate() {
        let expected = samples.get(i).copied().unwrap_or(0.0);
        assert!((v - expected).abs() < 1e-4, "{i}: {v} vs {expected}");
    }
}

#[test]
fn real_input_is_conjugate_symmetric() {
    let samples: Vec<f32> = (0..50).map(|i| (i as f32 * 0.37).cos() + 0.2 * (i as f32 * 1.9).sin()).collect();
    for window in Window::ALL {
        let sp = analyze(&samples, window, 64, 1000).unwrap();
        let b = sp.buckets();
        for k in 1..32 {
            assert!((b[k] - b[64 - k].conj()).norm() < 1e-3, "{window:?} {k}");
        }
    }
}

#[test]
fn shift_zero_is_identity() {
    let sp = analyze(&[1.0, -2.0, 3.0, 0.5, 4.0], Window::Rectangular, 8, 100).unwrap();
    let shifted = sp.shift(0, ZERO);
    assert_eq!(shifted.buckets(), sp.buckets());
    assert_eq!(shifted.width(), 8);
    assert_eq!(shifted.sample_rate(), 100);
}

#[test]
fn shift_spectrum_by_zero_buckets_is_unchanged() {
    let samples = sine(440.0, 44100, 300);
    let sp = analyze(&samples, Window::Hann, 512, 44100).unwrap();
    assert_eq!(sp.shift(0, ZERO).buckets(), sp.buckets());
}

#[test]
fn shift_past_half_is_all_zero() {
    let sp = analyze(&[1.0, 2.0, 3.0], Window::Rectangular, 8, 100).unwrap();
    for s in [4usize, 5, 8, 100, usize::MAX] {
        let shifted = sp.shift(s, ZERO);
        assert_eq!(shifted.width(), 8);
        assert!(shifted.buckets().iter().all(|c| *c == ZERO));
    }
}

#[test]
fn shift_moves_buckets() {
    let samples: Vec<C> = (0..8).map(|i| Complex::new(i as f32 + 1.0, 0.0)).collect();
    let src = Spectrum::analyze(samples, 8, 10, ZERO, butterfly).unwrap();
    let before: Vec<C> = src.buckets().to_vec();
    let shifted: Vec<C> = src.shift(1, ZERO).buckets().to_vec();
    let expected = vec![ZERO, before[0], before[1], before[2], before[5], before[6], before[7], ZERO];
    assert_eq!(shifted, expected);
}

#[test]
fn frequency_resolution_and_buckets() {
    let sp = analyze(&[0.0; 4], Window::Rectangular, 8, 800).unwrap();
    assert_eq!(to_f64(sp.freq_resolution()), 100.0);
    assert_eq!(to_f64(sp.freq_from_bucket(0)), 0.0);
    assert_eq!(to_f64(sp.freq_from_bucket(3)), 300.0);
    assert_eq!(to_f64(sp.freq_from_bucket(4)), 400.0);
    assert_eq!(to_f64(sp.freq_from_bucket(5)), -300.0);
    assert_eq!(to_f64(sp.freq_from_bucket(7)), -100.0);
    assert_eq!(sp.bucket_from_freq(0), 0);
    assert_eq!(sp.bucket_from_freq(149), 1);
    assert_eq!(sp.bucket_from_freq(150), 2);
    assert_eq!(sp.bucket_from_freq(350), 4);
    // not clamped to the spectrum
    assert_eq!(sp.bucket_from_freq(1000), 10);
    assert_eq!(sp.bucket_from_freq(u64::MAX), 184467440737095516);
    let slow = analyze(&[0.0; 4], Window::Rectangular, 8, 1).unwrap();
    assert_eq!(slow.bucket_from_freq(u64::MAX), usize::MAX);
}

#[test]
fn bucket_round_trip_within_resolution() {
    let sp = analyze(&[0.0; 10], Window::Hann, 16, 1000).unwrap();
    let res = to_f64(sp.freq_resolution());
    for f in 0..500u64 {
        let b = sp.bucket_from_freq(f);
        let back = to_f64(sp.freq_from_bucket(b));
        assert!((back - f as f64).abs() <= res, "{f}: {back}");
    }
}

#[test]
fn hann_440_scenario() {
    let rate = 44100;
    let samples = sine(440.0, rate, 2048);
    let sp = analyze(&samples, Window::Hann, 2048, rate).unwrap();
    assert!((to_f64(sp.freq_resolution()) - 44100.0 / 2048.0).abs() < 1e-9);
    assert!((to_f64(sp.freq_resolution()) - 21.53).abs() < 0.01);
    assert_eq!(sp.bucket_from_freq(440), 20);
    let best = main_frequency(&sp).unwrap();
    assert!((19..=21).contains(&best), "{best}");
}

#[test]
fn amplitude_order_with_nan() {
    assert_eq!(amplitude_order(Some(Ordering::Less), false, false), Ok(Ordering::Less));
    assert_eq!(amplitude_order(None, false, true), Ok(Ordering::Greater));
    assert_eq!(amplitude_order(None, true, false), Ok(Ordering::Less));
    assert_eq!(amplitude_order(None, true, true), Err(SpectrumError::BothNaN));
}

#[test]
fn main_frequency_takes_last_of_equals() {
    // a flat spectrum: every amplitude in the real half is 1
    let mut impulse = vec![ZERO; 8];
    impulse[0] = Complex::new(1.0, 0.0);
    let sp = Spectrum::analyze(impulse, 8, 100, ZERO, butterfly).unwrap();
    assert_eq!(main_frequency(&sp), Ok(4));
    let sp = analyze(&[0.0; 8], Window::Rectangular, 8, 100).unwrap();
    assert_eq!(main_frequency(&sp), Ok(4));
}

#[test]
fn main_frequency_reports_comparison_error() {
    let sp = analyze(&[1.0, 2.0], Window::Rectangular, 4, 100).unwrap();
    let r = sp.main_frequency(|i: usize, _j: usize| if i == 0 { Ok(Ordering::Less) } else { Err(SpectrumError::BothNaN) });
    assert_eq!(r, Err(SpectrumError::BothNaN));
    let r = sp.main_frequency(|_i: usize, _j: usize| Ok(Ordering::Greater));
    assert_eq!(r, Ok(0));
    let width_one = analyze(&[3.0], Window::Rectangular, 1, 100).unwrap();
    assert_eq!(width_one.main_frequency(|_i: usize, _j: usize| Err(SpectrumError::BothNaN)), Ok(0));
}

#[test]
fn waveform_of_impulse_spectrum() {
    // the spectrum of a unit impulse at 0 is flat; its waveform is the impulse
    let sp = analyze(&[1.0, 0.0, 0.0, 0.0], Window::Rectangular, 4, 100).unwrap();
    let back = waveform(&sp);
    let expected = [1.0, 0.0, 0.0, 0.0];
    for (a, b) in back.iter().zip(expected.iter()) {
        assert!((a - b).abs() < 1e-6);
    }
}

#[test]
fn spectrum_applies_window_before_transform() {
    // Bartlett over 4 samples scales by [0, 0.5, 1, 0.5]; with a butterfly
    // that keeps its pair the transform is the bit-reversal permutation
    let keep = |a: C, b: C, _k: usize, _len: usize| (a, b);
    let samples = vec![4.0f32, 4.0, 4.0, 4.0];
    let sp = Spectrum::spectrum(&samples, Window::Bartlett, 8, 10, ZERO, apply, keep).unwrap();
    let re: Vec<f32> = sp.buckets().iter().map(|c| c.re).collect();
    // padded [0, 2, 4, 2, 0, 0, 0, 0] in bit-reversed order
    assert_eq!(re, vec![0.0, 0.0, 4.0, 0.0, 2.0, 0.0, 2.0, 0.0]);
}

#[test]
fn analyze_takes_prepared_buckets() {
    let keep = |a: C, b: C, _k: usize, _len: usize| (a, b);
    let input: Vec<C> = (0..3).map(|i| Complex::new(i as f32, 1.0)).collect();
    let sp = Spectrum::analyze(input, 4, 10, ZERO, keep).unwrap();
    let expected = vec![Complex::new(0.0, 1.0), Complex::new(2.0, 1.0), Complex::new(1.0, 1.0), ZERO];
    assert_eq!(sp.buckets().to_vec(), expected);
}

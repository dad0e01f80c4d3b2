use num_complex::Complex;
use spectrum::{bit_reverse_permutation, exact_log2, reverse_index, transform_in_place, SpectrumError};

fn butterfly(a: Complex<f32>, b: Complex<f32>, k: usize, len: usize) -> (Complex<f32>, Complex<f32>) {
    let w = Complex::from_polar(1.0, -std::f32::consts::TAU * k as f32 / len as f32);
    (a + w * b, a - w * b)
}

fn naive_dft(x: &[Complex<f32>]) -> Vec<Complex<f32>> {
    let n = x.len();
    (0..n)
        .map(|k| {
            x.iter().enumerate().fold(Complex::new(0.0, 0.0), |acc, (j, v)| {
                let w = Complex::from_polar(1.0, -std::f32::consts::TAU * ((j * k) % n) as f32 / n as f32);
                acc + w * v
            })
        })
        .collect()
}

#[test]
fn zero_buffer_stays_zero() {
    for width in [1usize, 2, 4, 8, 256] {
        let mut buf = vec![Complex::new(0.0f32, 0.0); width];
        assert_eq!(transform_in_place(&mut buf, butterfly), Ok(()));
        assert!(buf.iter().all(|c| *c == Complex::new(0.0, 0.0)));
    }
}

#[test]
fn rejects_width_not_power_of_two() {
    for width in [0usize, 3, 6, 12, 1000] {
        let mut buf = vec![Complex::new(1.0f32, 0.0); width];
        let before = buf.clone();
        assert_eq!(transform_in_place(&mut buf, butterfly), Err(SpectrumError::WidthNotPowerOfTwo));
        assert_eq!(buf, before);
    }
}

#[test]
fn matches_direct_transform() {
    let x: Vec<Complex<f32>> = (0..16).map(|i| Complex::new((i as f32 * 0.7).sin(), (i % 3) as f32)).collect();
    let expected = naive_dft(&x);
    let mut buf = x.clone();
    transform_in_place(&mut buf, butterfly).unwrap();
    for (a, b) in buf.iter().zip(expected.iter()) {
        assert!((a - b).norm() < 1e-3, "{a} vs {b}");
    }
}

#[test]
fn impulse_gives_flat_spectrum() {
    let mut buf = vec![Complex::new(0.0f32, 0.0); 8];
    buf[0] = Complex::new(1.0, 0.0);
    transform_in_place(&mut buf, butterfly).unwrap();
    assert!(buf.iter().all(|c| (c - Complex::new(1.0, 0.0)).norm() < 1e-6));
}

#[test]
fn exact_log2_values() {
    assert_eq!(exact_log2(1), Some(0));
    assert_eq!(exact_log2(2), Some(1));
    assert_eq!(exact_log2(2048), Some(11));
    assert_eq!(exact_log2(1 << 63), Some(63));
    assert_eq!(exact_log2(0), None);
    assert_eq!(exact_log2(3), None);
    assert_eq!(exact_log2(usize::MAX), None);
}

#[test]
fn bit_reversal() {
    assert_eq!(reverse_index(1, 3), 4);
    assert_eq!(reverse_index(6, 3), 3);
    assert_eq!(reverse_index(0, 0), 0);
    let v: Vec<u32> = (0..8).collect();
    assert_eq!(bit_reverse_permutation(&v, 3), vec![0, 4, 2, 6, 1, 5, 3, 7]);
}

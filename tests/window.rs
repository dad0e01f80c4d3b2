use spectrum::{ScaleFactor, Window};

fn value(f: ScaleFactor) -> f32 {
    let turn = f.index as f32 / f.width as f32;
    (f.base as f32 - f.cos_coeff as f32 * (std::f32::consts::TAU * turn).cos()) / f.den as f32
}

fn values(window: Window, width: usize) -> Vec<f32> {
    let mut iter = window.into_iter(width);
    let mut out = Vec::new();
    while let Some(f) = iter.next() {
        out.push(value(f));
    }
    out
}

#[test]
fn rectangular_is_all_ones() {
    for width in [1usize, 2, 7, 64] {
        let v = values(Window::Rectangular, width);
        assert_eq!(v.len(), width);
        assert!(v.iter().all(|&x| x == 1.0));
    }
}

#[test]
fn hann_and_hamming_stay_in_unit_range() {
    for window in [Window::Hann, Window::Hamming] {
        for width in [1usize, 3, 16, 1000] {
            let v = values(window, width);
            assert_eq!(v.len(), width);
            assert!(v.iter().all(|&x| (0.0..=1.0).contains(&x)), "{window:?} {width}");
        }
    }
}

#[test]
fn bartlett_endpoints() {
    let f = Window::Bartlett.factor(0, 8);
    assert_eq!(f.base, 0);
    assert_eq!(value(f), 0.0);
    let f = Window::Bartlett.factor(4, 8);
    assert_eq!(f.base, f.den);
    assert_eq!(value(f), 1.0);
    let f = Window::Bartlett.factor(2, 8);
    assert_eq!(value(f), 0.5);
    // odd width: 1 - |3 - 2.5| / 2.5 == 0.8
    let f = Window::Bartlett.factor(3, 5);
    assert_eq!((f.base, f.den), (4, 5));
}

#[test]
fn hann_and_hamming_coefficients() {
    let f = Window::Hann.factor(3, 10);
    assert_eq!((f.base, f.cos_coeff, f.den, f.index, f.width), (1, 1, 2, 3, 10));
    let f = Window::Hamming.factor(0, 4);
    assert_eq!((f.base, f.cos_coeff, f.den), (25, 21, 46));
    assert!((value(f) - 4.0 / 46.0).abs() < 1e-6);
    assert!((value(Window::Hann.factor(2, 4)) - 1.0).abs() < 1e-6);
}

#[test]
fn iterator_stops_after_width() {
    let mut iter = Window::Hann.into_iter(2);
    assert!(iter.next().is_some());
    assert!(iter.next().is_some());
    assert!(iter.next().is_none());
    assert!(iter.next().is_none());
    let mut empty = Window::Rectangular.into_iter(0);
    assert!(empty.next().is_none());
}

#[test]
fn all_kinds_listed_with_names() {
    let names: Vec<&str> = Window::ALL.iter().map(|w| w.name()).collect();
    assert_eq!(names, vec!["Bartlett", "Hamming", "Hann", "Rectangular"]);
}

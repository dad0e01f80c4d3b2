use vstd::prelude::*;

verus! {

/// A window function: a per-sample scaling envelope applied before analysis.
#[derive(Clone, Copy, Debug, PartialEq, Eq, Structural)]
pub enum Window {
    /// The triangular window.
    Bartlett,
    Hamming,
    /// Good default choice.
    Hann,
    Rectangular,
}

/// The scale factor of one sample, as an exact expression:
/// `(base - cos_coeff * cos(2π · index / width)) / den`.
#[derive(Clone, Copy, Debug, PartialEq, Eq, Structural)]
pub struct ScaleFactor {
    pub base: u64,
    pub cos_coeff: u64,
    pub den: u64,
    pub index: u64,
    pub width: u64,
}

/// `|a - b|` over integers.
pub open spec fn abs_diff(a: int, b: int) -> int {
    if a >= b { a - b } else { b - a }
}

/// The scale factor of sample `n` of a window of `width` samples:
/// Rectangular is `1`, Bartlett is `1 - |n - width/2| / (width/2)`, Hann is
/// `(1 - cos(2πn/width)) / 2`, Hamming is `(25 - 21 cos(2πn/width)) / 46`.
pub open spec fn factor_of(w: Window, n: nat, width: nat) -> ScaleFactor {
    let (base, cos_coeff, den) = match w {
        Window::Rectangular => (1int, 0int, 1int),
        Window::Bartlett => (width - abs_diff(2 * n as int, width as int), 0int, width as int),
        Window::Hann => (1int, 1int, 2int),
        Window::Hamming => (25int, 21int, 46int),
    };
    ScaleFactor {
        base: base as u64,
        cos_coeff: cos_coeff as u64,
        den: den as u64,
        index: n as u64,
        width: width as u64,
    }
}

impl ScaleFactor {
    /// The value is `base / den` when the cosine term vanishes.
    pub open spec fn is_constant(self) -> bool {
        self.cos_coeff == 0
    }

    /// Whatever the cosine evaluates to in `[-1, 1]`, the value lies in
    /// `[0, 1]`: `0 <= base - cos_coeff` and `base + cos_coeff <= den`.
    pub open spec fn within_unit(self) -> bool {
        &&& self.den > 0
        &&& self.cos_coeff <= self.base
        &&& self.base + self.cos_coeff <= self.den
    }
}

impl Window {
    pub const ALL: [Window; 4] = [Window::Bartlett, Window::Hamming, Window::Hann, Window::Rectangular];

    /// The name of the window kind.
    pub fn name(&self) -> (r: &'static str)
        ensures
            *self == Window::Bartlett ==> r@ == "Bartlett"@,
            *self == Window::Hamming ==> r@ == "Hamming"@,
            *self == Window::Hann ==> r@ == "Hann"@,
            *self == Window::Rectangular ==> r@ == "Rectangular"@,
    {
        match self {
            Window::Bartlett => "Bartlett",
            Window::Hamming => "Hamming",
            Window::Hann => "Hann",
            Window::Rectangular => "Rectangular",
        }
    }

    /// The scale factor of sample `n` of a window of `width` samples.
    pub fn factor(self, n: usize, width: usize) -> (r: ScaleFactor)
        requires
            n < width,
        ensures
            r == factor_of(self, n as nat, width as nat),
    {
        let (base, cos_coeff, den): (u64, u64, u64) = match self {
            Window::Rectangular => (1, 0, 1),
            Window::Bartlett => {
                // |2n - width| == |n - (width - n)|, computed without overflow
                let rest: usize = width - n;
                let dist: usize = if n >= rest { n - rest } else { rest - n };
                ((width - dist) as u64, 0, width as u64)
            },
            Window::Hann => (1, 1, 2),
            Window::Hamming => (25, 21, 46),
        };
        ScaleFactor { base, cos_coeff, den, index: n as u64, width: width as u64 }
    }

    /// An iterator over the scale factors of a window of `width` samples.
    pub fn into_iter(self, width: usize) -> (r: WindowIter)
        ensures
            r.window() == self,
            r.position() == 0,
            r.width() == width,
    {
        WindowIter { next: 0, width, window: self }
    }
}

/// The scale factors of a window, produced one sample at a time.
#[derive(Clone, Copy, Debug)]
pub struct WindowIter {
    next: usize,
    width: usize,
    window: Window,
}

impl WindowIter {
    pub closed spec fn window(&self) -> Window {
        self.window
    }

    /// The index of the next sample.
    pub closed spec fn position(&self) -> nat {
        self.next as nat
    }

    pub closed spec fn width(&self) -> nat {
        self.width as nat
    }

    /// The scale factor of the next sample, or `None` once all `width` have
    /// been produced.
    pub fn next(&mut self) -> (r: Option<ScaleFactor>)
        ensures
            final(self).window() == old(self).window(),
            final(self).width() == old(self).width(),
            old(self).position() < old(self).width() ==> {
                &&& r == Some(factor_of(old(self).window(), old(self).position(), old(self).width()))
                &&& final(self).position() == old(self).position() + 1
            },
            old(self).position() >= old(self).width() ==> {
                &&& r.is_none()
                &&& final(self).position() == old(self).position()
            },
    {
        if self.next < self.width {
            let f = self.window.factor(self.next, self.width);
            self.next = self.next + 1;
            Some(f)
        } else {
            None
        }
    }
}

/// Every scale factor lies in `[0, 1]`; a rectangular window is `1`
/// everywhere; a triangular window is `0` at its first sample and `1` at its
/// midpoint.
pub proof fn lemma_window_bounds(w: Window, n: nat, width: nat)
    requires
        n < width,
        width <= u64::MAX,
    ensures
        factor_of(w, n, width).within_unit(),
        w == Window::Rectangular ==> factor_of(w, n, width).is_constant()
            && factor_of(w, n, width).base == factor_of(w, n, width).den,
        w == Window::Bartlett && n == 0 ==> factor_of(w, n, width).is_constant()
            && factor_of(w, n, width).base == 0,
        w == Window::Bartlett && 2 * n == width ==> factor_of(w, n, width).is_constant()
            && factor_of(w, n, width).base == factor_of(w, n, width).den,
{
}

} // verus!

//! Pixel buffers and output-format selection.

use vstd::prelude::*;
use vstd::string::StringSliceAdditionalSpecFns;

verus! {

broadcast use vstd::std_specs::vec::axiom_spec_len;

/// On-disk encodings that an output or texture file name can select.
#[derive(Clone, Copy, Debug, PartialEq, Eq, Structural)]
pub enum Format {
    JPG,
    PNG,
    PPM,
}

/// ASCII lower-casing of a single byte; other bytes are left alone.
pub open spec fn lower_byte(b: u8) -> u8 {
    if 65 <= b <= 90 {
        (b + 32) as u8
    } else {
        b
    }
}

/// The format that a file name selects: a `jpeg` suffix, compared without
/// regard to ASCII case, means JPG, and otherwise the three last bytes decide.
/// Meaningful for names of at least four bytes.
pub open spec fn format_of(s: Seq<u8>) -> Option<Format> {
    let n = s.len() as int;
    if lower_byte(s[n - 4]) == 106 && lower_byte(s[n - 3]) == 112 && lower_byte(s[n - 2])
        == 101 && lower_byte(s[n - 1]) == 103 {
        Some(Format::JPG)
    } else if lower_byte(s[n - 3]) == 106 && lower_byte(s[n - 2]) == 112 && lower_byte(s[n - 1])
        == 103 {
        Some(Format::JPG)
    } else if lower_byte(s[n - 3]) == 112 && lower_byte(s[n - 2]) == 110 && lower_byte(s[n - 1])
        == 103 {
        Some(Format::PNG)
    } else if lower_byte(s[n - 3]) == 112 && lower_byte(s[n - 2]) == 112 && lower_byte(s[n - 1])
        == 109 {
        Some(Format::PPM)
    } else {
        None
    }
}

fn lower(b: u8) -> (r: u8)
    ensures
        r == lower_byte(b),
{
    if 65 <= b && b <= 90 {
        b + 32
    } else {
        b
    }
}

/// Infers the output encoding from a file name by its suffix, ignoring ASCII
/// case.
pub fn infer_format(path: &str) -> (r: Option<Format>)
    requires
        path.spec_bytes().len() >= 4,
    ensures
        r == format_of(path.spec_bytes()),
{
    let bytes: &[u8] = path.as_bytes();
    let n: usize = bytes.len();
    if lower(bytes[n - 4]) == 106 && lower(bytes[n - 3]) == 112 && lower(bytes[n - 2]) == 101
        && lower(bytes[n - 1]) == 103 {
        return Some(Format::JPG);
    }
    let s2 = lower(bytes[n - 3]);
    let s1 = lower(bytes[n - 2]);
    let s0 = lower(bytes[n - 1]);
    if s2 == 106 && s1 == 112 && s0 == 103 {
        Some(Format::JPG)
    } else if s2 == 112 && s1 == 110 && s0 == 103 {
        Some(Format::PNG)
    } else if s2 == 112 && s1 == 112 && s0 == 109 {
        Some(Format::PPM)
    } else {
        None
    }
}

/// A `w` by `h` buffer of pixels in row-major order.
///
/// The renderer stores floating-point radiance triples in it; the buffer
/// itself is indifferent to the pixel type, so its layout and its flips are
/// verified for any copyable pixel.
#[derive(Clone)]
pub struct Image<T> {
    pub w: usize,
    pub h: usize,
    data: Vec<T>,
}

proof fn lemma_grid_index(w: int, h: int, x: int, y: int)
    by (nonlinear_arith)
    requires
        0 <= x < w,
        0 <= y < h,
    ensures
        0 <= y * w + x < w * h,
        w * y == y * w,
{
}

proof fn lemma_grid_index_injective(w: int, x1: int, y1: int, x2: int, y2: int)
    by (nonlinear_arith)
    requires
        0 <= x1 < w,
        0 <= x2 < w,
        0 <= y1,
        0 <= y2,
        x1 != x2 || y1 != y2,
    ensures
        y1 * w + x1 != y2 * w + x2,
{
}

impl<T: Copy> Image<T> {
    /// The width in pixels, for contracts; it equals the public field `w`.
    pub closed spec fn width(self) -> usize {
        self.w
    }

    /// The height in pixels, for contracts; it equals the public field `h`.
    pub closed spec fn height(self) -> usize {
        self.h
    }

    /// The buffer holds exactly one pixel for each of the `w * h` grid cells.
    pub closed spec fn wf(self) -> bool {
        self.data@.len() == self.w * self.h
    }

    /// The pixel of grid cell `(x, y)`.
    pub closed spec fn pix(self, x: int, y: int) -> T {
        self.data@[y * self.w + x]
    }

    /// A fresh `w` by `h` buffer with every pixel set to `fill`.
    pub fn empty(w: usize, h: usize, fill: T) -> (r: Image<T>)
        requires
            w * h <= usize::MAX,
        ensures
            r.wf(),
            r.width() == w,
            r.height() == h,
            forall|x: int, y: int| 0 <= x < w && 0 <= y < h ==> r.pix(x, y) == fill,
    {
        let n: usize = w * h;
        let mut data: Vec<T> = Vec::new();
        let mut i: usize = 0;
        while i < n
            invariant
                i <= n,
                data@.len() == i,
                forall|k: int| 0 <= k < i ==> data@[k] == fill,
            decreases n - i,
        {
            data.push(fill);
            i = i + 1;
        }
        let r = Image { w, h, data };
        proof {
            assert forall|x: int, y: int| 0 <= x < w && 0 <= y < h implies r.pix(x, y) == fill by {
                lemma_grid_index(w as int, h as int, x, y);
            }
        }
        r
    }

    /// The row-major offset of grid cell `(x, y)`.
    pub fn index(&self, x: usize, y: usize) -> (r: usize)
        requires
            self.wf(),
            x < self.width(),
            y < self.height(),
        ensures
            r == y * self.width() + x,
            r < self.width() * self.height(),
    {
        proof {
            lemma_grid_index(self.w as int, self.h as int, x as int, y as int);
            assert(self.data.len() <= usize::MAX && self.data.len() == self.data@.len());
        }
        self.w * y + x
    }

    /// Reads the pixel of grid cell `(x, y)`.
    pub fn at(&self, x: usize, y: usize) -> (r: T)
        requires
            self.wf(),
            x < self.width(),
            y < self.height(),
        ensures
            r == self.pix(x as int, y as int),
    {
        let i = self.index(x, y);
        self.data[i]
    }

    /// Writes the pixel of grid cell `(x, y)`, leaving every other cell alone.
    pub fn set(&mut self, x: usize, y: usize, v: T)
        requires
            old(self).wf(),
            x < old(self).width(),
            y < old(self).height(),
        ensures
            final(self).wf(),
            final(self).width() == old(self).width(),
            final(self).height() == old(self).height(),
            final(self).pix(x as int, y as int) == v,
            forall|a: int, b: int|
                0 <= a < old(self).width() && 0 <= b < old(self).height() && (a != x || b != y)
                    ==> final(self).pix(a, b) == old(self).pix(a, b),
    {
        let i = self.index(x, y);
        self.data.set(i, v);
        proof {
            assert forall|a: int, b: int|
                0 <= a < self.w && 0 <= b < self.h && (a != x || b != y) implies self.pix(a, b)
                == old(self).pix(a, b) by {
                lemma_grid_index(self.w as int, self.h as int, a, b);
                lemma_grid_index_injective(self.w as int, a, b, x as int, y as int);
            }
        }
    }

    /// Mirrors the buffer left to right: the pixel of `(x, y)` becomes the one
    /// of `(w - 1 - x, y)`.
    pub fn lr(&mut self)
        requires
            old(self).wf(),
        ensures
            final(self).wf(),
            final(self).width() == old(self).width(),
            final(self).height() == old(self).height(),
            forall|x: int, y: int|
                0 <= x < old(self).width() && 0 <= y < old(self).height()
                    ==> final(self).pix(x, y) == old(self).pix(old(self).width() - 1 - x, y),
    {
        let w = self.w;
        let h = self.h;
        let mut i: usize = 0;
        while i < w / 2
            invariant
                self.wf(),
                self.w == w,
                self.h == h,
                i <= w / 2,
                forall|x: int, y: int|
                    0 <= y < h && (0 <= x < i || w - i <= x < w)
                        ==> self.pix(x, y) == old(self).pix(w - 1 - x, y),
                forall|x: int, y: int|
                    0 <= y < h && i <= x < w - i ==> self.pix(x, y) == old(self).pix(x, y),
            decreases w / 2 - i,
        {
            let mut j: usize = 0;
            while j < h
                invariant
                    self.wf(),
                    self.w == w,
                    self.h == h,
                    i < w / 2,
                    j <= h,
                    forall|x: int, y: int|
                        0 <= y < h && (0 <= x < i || w - i <= x < w)
                            ==> self.pix(x, y) == old(self).pix(w - 1 - x, y),
                    forall|y: int|
                        0 <= y < j
                            ==> self.pix(i as int, y) == old(self).pix(w - 1 - i, y)
                                && self.pix(w - 1 - i, y) == old(self).pix(i as int, y),
                    forall|y: int|
                        j <= y < h
                            ==> self.pix(i as int, y) == old(self).pix(i as int, y)
                                && self.pix(w - 1 - i, y) == old(self).pix(w - 1 - i, y),
                    forall|x: int, y: int|
                        0 <= y < h && i < x < w - 1 - i ==> self.pix(x, y) == old(self).pix(x, y),
                decreases h - j,
            {
                let a = self.at(i, j);
                let b = self.at(w - 1 - i, j);
                self.set(i, j, b);
                self.set(w - 1 - i, j, a);
                j = j + 1;
            }
            i = i + 1;
        }
    }

    /// Mirrors the buffer top to bottom: the pixel of `(x, y)` becomes the one
    /// of `(x, h - 1 - y)`.
    pub fn ud(&mut self)
        requires
            old(self).wf(),
        ensures
            final(self).wf(),
            final(self).width() == old(self).width(),
            final(self).height() == old(self).height(),
            forall|x: int, y: int|
                0 <= x < old(self).width() && 0 <= y < old(self).height()
                    ==> final(self).pix(x, y) == old(self).pix(x, old(self).height() - 1 - y),
    {
        let w = self.w;
        let h = self.h;
        let mut i: usize = 0;
        while i < w
            invariant
                self.wf(),
                self.w == w,
                self.h == h,
                i <= w,
                forall|x: int, y: int|
                    0 <= x < i && 0 <= y < h ==> self.pix(x, y) == old(self).pix(x, h - 1 - y),
                forall|x: int, y: int|
                    i <= x < w && 0 <= y < h ==> self.pix(x, y) == old(self).pix(x, y),
            decreases w - i,
        {
            let mut j: usize = 0;
            while j < h / 2
                invariant
                    self.wf(),
                    self.w == w,
                    self.h == h,
                    i < w,
                    j <= h / 2,
                    forall|x: int, y: int|
                        0 <= x < i && 0 <= y < h ==> self.pix(x, y) == old(self).pix(x, h - 1 - y),
                    forall|y: int|
                        0 <= y < h && (0 <= y < j || h - j <= y < h)
                            ==> self.pix(i as int, y) == old(self).pix(i as int, h - 1 - y),
                    forall|y: int|
                        j <= y < h - j ==> self.pix(i as int, y) == old(self).pix(i as int, y),
                    forall|x: int, y: int|
                        i < x < w && 0 <= y < h ==> self.pix(x, y) == old(self).pix(x, y),
                decreases h / 2 - j,
            {
                let a = self.at(i, j);
                let b = self.at(i, h - 1 - j);
                self.set(i, j, b);
                self.set(i, h - 1 - j, a);
                j = j + 1;
            }
            i = i + 1;
        }
    }
}

} // verus!

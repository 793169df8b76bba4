use vstd::prelude::*;

use crate::color::MyColor;

verus! {

/// A decoded raster image: row-major pixels, position `(x, y)` at index
/// `y * width + x`.
#[derive(PartialEq, Eq, Clone, Debug)]
pub struct Bitmap {
    pub width: u32,
    pub height: u32,
    pub pixels: Vec<MyColor>,
}

/// The sum of the red channels of a pixel sequence.
pub open spec fn sum_r(s: Seq<MyColor>) -> int
    decreases s.len(),
{
    if s.len() == 0 {
        0
    } else {
        sum_r(s.drop_last()) + s.last().r
    }
}

/// The sum of the green channels of a pixel sequence.
pub open spec fn sum_g(s: Seq<MyColor>) -> int
    decreases s.len(),
{
    if s.len() == 0 {
        0
    } else {
        sum_g(s.drop_last()) + s.last().g
    }
}

/// The sum of the blue channels of a pixel sequence.
pub open spec fn sum_b(s: Seq<MyColor>) -> int
    decreases s.len(),
{
    if s.len() == 0 {
        0
    } else {
        sum_b(s.drop_last()) + s.last().b
    }
}

/// The representative color of a non-empty pixel sequence: each channel is
/// the mean over all pixels, truncated toward zero to 8 bits.
pub open spec fn avg_spec(s: Seq<MyColor>) -> MyColor {
    MyColor {
        r: (sum_r(s) / s.len() as int) as u8,
        g: (sum_g(s) / s.len() as int) as u8,
        b: (sum_b(s) / s.len() as int) as u8,
    }
}

impl Bitmap {
    /// Structural soundness: the pixel store covers the full raster.
    pub open spec fn wf(self) -> bool {
        self.pixels@.len() == self.width * self.height
    }

    /// The pixel at `(x, y)`.
    pub open spec fn pixel_at(self, x: int, y: int) -> MyColor {
        self.pixels@[y * self.width + x]
    }

    /// A raster of the given size, filled with black.
    pub fn new_black(width: u32, height: u32) -> (b: Bitmap)
        requires
            width * height <= usize::MAX,
        ensures
            b.wf(),
            b.width == width,
            b.height == height,
            forall|i: int|
                0 <= i < b.pixels@.len() ==> #[trigger] b.pixels@[i] == (MyColor {
                    r: 0,
                    g: 0,
                    b: 0,
                }),
    {
        let total: usize = (width as usize) * (height as usize);
        let mut pixels: Vec<MyColor> = Vec::new();
        for i in 0..total
            invariant
                pixels@.len() == i,
                forall|j: int|
                    0 <= j < i ==> #[trigger] pixels@[j] == (MyColor { r: 0, g: 0, b: 0 }),
        {
            pixels.push(MyColor { r: 0, g: 0, b: 0 });
        }
        Bitmap { width, height, pixels }
    }

    /// Read the pixel at `(x, y)`.
    pub fn get_pixel(&self, x: u32, y: u32) -> (c: MyColor)
        requires
            self.wf(),
            x < self.width,
            y < self.height,
        ensures
            c == self.pixel_at(x as int, y as int),
    {
        let n = self.pixels.len();
        proof {
            lemma_grid_index(x as int, y as int, self.width as int, self.height as int);
            assert(y * self.width + x < n);
        }
        self.pixels[(y as usize) * (self.width as usize) + (x as usize)]
    }

    /// Write the pixel at `(x, y)`, leaving every other pixel as it was.
    pub fn set_pixel(&mut self, x: u32, y: u32, c: MyColor)
        requires
            old(self).wf(),
            x < old(self).width,
            y < old(self).height,
        ensures
            final(self).wf(),
            final(self).width == old(self).width,
            final(self).height == old(self).height,
            final(self).pixels@ == old(self).pixels@.update(
                y * old(self).width + x,
                c,
            ),
    {
        let n = self.pixels.len();
        proof {
            lemma_grid_index(x as int, y as int, old(self).width as int, old(self).height as int);
            assert(y * old(self).width + x < n);
        }
        let i: usize = (y as usize) * (self.width as usize) + (x as usize);
        self.pixels.set(i, c);
    }

    /// Paste `src` whole into `self`, its top-left corner at `(x0, y0)`:
    /// inside the pasted rectangle the pixels are `src`'s, outside they are
    /// untouched.
    pub fn copy_from(&mut self, src: &Bitmap, x0: u32, y0: u32)
        requires
            old(self).wf(),
            src.wf(),
            x0 + src.width <= old(self).width,
            y0 + src.height <= old(self).height,
        ensures
            final(self).wf(),
            final(self).width == old(self).width,
            final(self).height == old(self).height,
            forall|px: int, py: int|
                0 <= px < old(self).width && 0 <= py < old(self).height
                    ==> #[trigger] final(self).pixel_at(px, py) == (if x0 <= px < x0 + src.width
                    && y0 <= py < y0 + src.height {
                    src.pixel_at(px - x0, py - y0)
                } else {
                    old(self).pixel_at(px, py)
                }),
    {
        let sw = src.width;
        let sh = src.height;
        for y in 0..sh
            invariant
                self.wf(),
                self.width == old(self).width,
                self.height == old(self).height,
                src.wf(),
                sw == src.width,
                sh == src.height,
                x0 + sw <= self.width,
                y0 + sh <= self.height,
                forall|px: int, py: int|
                    0 <= px < self.width && 0 <= py < self.height
                        ==> #[trigger] self.pixel_at(px, py) == (if x0 <= px < x0 + sw && y0 <= py
                        < y0 + y {
                        src.pixel_at(px - x0, py - y0)
                    } else {
                        old(self).pixel_at(px, py)
                    }),
        {
            for x in 0..sw
                invariant
                    self.wf(),
                    self.width == old(self).width,
                    self.height == old(self).height,
                    src.wf(),
                    sw == src.width,
                    sh == src.height,
                    y < sh,
                    x0 + sw <= self.width,
                    y0 + sh <= self.height,
                    forall|px: int, py: int|
                        0 <= px < self.width && 0 <= py < self.height
                            ==> #[trigger] self.pixel_at(px, py) == (if x0 <= px < x0 + sw && y0
                            <= py < y0 + y {
                            src.pixel_at(px - x0, py - y0)
                        } else if py == y0 + y && x0 <= px < x0 + x {
                            src.pixel_at(px - x0, y as int)
                        } else {
                            old(self).pixel_at(px, py)
                        }),
            {
                let c = src.get_pixel(x, y);
                let ghost prev = *self;
                self.set_pixel(x0 + x, y0 + y, c);
                proof {
                    let w = self.width as int;
                    assert forall|px: int, py: int|
                        0 <= px < self.width && 0 <= py < self.height implies #[trigger] self
                        .pixel_at(px, py) == (if x0 <= px < x0 + sw && y0 <= py < y0 + y {
                        src.pixel_at(px - x0, py - y0)
                    } else if py == y0 + y && x0 <= px < x0 + x + 1 {
                        src.pixel_at(px - x0, y as int)
                    } else {
                        old(self).pixel_at(px, py)
                    }) by {
                        assert(self.pixels@ == prev.pixels@.update(
                            (y0 + y) * prev.width + (x0 + x),
                            c,
                        ));
                        lemma_grid_index(px, py, w, self.height as int);
                        lemma_grid_index(x0 + x, y0 + y, w, self.height as int);
                        if py * w + px == (y0 + y) * w + (x0 + x) {
                            lemma_grid_index_injective(
                                px,
                                py,
                                x0 + x,
                                y0 + y,
                                w,
                            );
                        } else {
                            assert(self.pixel_at(px, py) == prev.pixel_at(px, py));
                        }
                    }
                }
            }
        }
    }

    /// The representative color of the whole image: the per-channel mean of
    /// every pixel, truncated to 8 bits. `None` exactly for a zero-pixel
    /// raster, which has no mean.
    pub fn average_color(&self) -> (r: Option<MyColor>)
        requires
            self.wf(),
        ensures
            match r {
                Some(c) => self.pixels@.len() > 0 && c == avg_spec(self.pixels@),
                None => self.pixels@.len() == 0,
            },
    {
        let n = self.pixels.len();
        if n == 0 {
            return None;
        }
        let mut sr: u128 = 0;
        let mut sg: u128 = 0;
        let mut sb: u128 = 0;
        for i in 0..n
            invariant
                n == self.pixels@.len(),
                sr == sum_r(self.pixels@.take(i as int)),
                sg == sum_g(self.pixels@.take(i as int)),
                sb == sum_b(self.pixels@.take(i as int)),
                sr <= 255 * i,
                sg <= 255 * i,
                sb <= 255 * i,
        {
            proof {
                assert(self.pixels@.take(i + 1).drop_last() == self.pixels@.take(i as int));
                assert(self.pixels@.take(i + 1).last() == self.pixels@[i as int]);
            }
            let p = self.pixels[i];
            sr = sr + p.r as u128;
            sg = sg + p.g as u128;
            sb = sb + p.b as u128;
        }
        proof {
            assert(self.pixels@.take(n as int) == self.pixels@);
            lemma_mean_fits(sr as int, n as int);
            lemma_mean_fits(sg as int, n as int);
            lemma_mean_fits(sb as int, n as int);
        }
        Some(
            MyColor {
                r: (sr / n as u128) as u8,
                g: (sg / n as u128) as u8,
                b: (sb / n as u128) as u8,
            },
        )
    }
}

/// A channel sum bounded by 255 per pixel has a mean of at most 255.
proof fn lemma_mean_fits(s: int, n: int)
    requires
        n > 0,
        0 <= s <= 255 * n,
    ensures
        0 <= s / n <= 255,
{
    vstd::arithmetic::div_mod::lemma_div_is_ordered(s, 255 * n, n);
    assert(255 * n == n * 255) by (nonlinear_arith);
    vstd::arithmetic::div_mod::lemma_div_multiples_vanish(255, n);
    vstd::arithmetic::div_mod::lemma_div_is_ordered(0, s, n);
    vstd::arithmetic::div_mod::lemma_div_of0(n);
}

/// A uniformly filled image averages to exactly its fill color: the mean of
/// a constant sequence is that constant, with no truncation loss.
pub proof fn lemma_uniform_average(s: Seq<MyColor>, c: MyColor)
    requires
        s.len() > 0,
        forall|i: int| 0 <= i < s.len() ==> #[trigger] s[i] == c,
    ensures
        avg_spec(s) == c,
{
    lemma_uniform_sums(s, c);
    let n = s.len() as int;
    assert(c.r * n == n * (c.r as int)) by (nonlinear_arith);
    assert(c.g * n == n * (c.g as int)) by (nonlinear_arith);
    assert(c.b * n == n * (c.b as int)) by (nonlinear_arith);
    vstd::arithmetic::div_mod::lemma_div_multiples_vanish(c.r as int, n);
    vstd::arithmetic::div_mod::lemma_div_multiples_vanish(c.g as int, n);
    vstd::arithmetic::div_mod::lemma_div_multiples_vanish(c.b as int, n);
}

proof fn lemma_uniform_sums(s: Seq<MyColor>, c: MyColor)
    requires
        forall|i: int| 0 <= i < s.len() ==> #[trigger] s[i] == c,
    ensures
        sum_r(s) == c.r * s.len(),
        sum_g(s) == c.g * s.len(),
        sum_b(s) == c.b * s.len(),
    decreases s.len(),
{
    if s.len() > 0 {
        lemma_uniform_sums(s.drop_last(), c);
        let n = s.len() as int;
        assert(c.r * (n - 1) + c.r == c.r * n) by (nonlinear_arith);
        assert(c.g * (n - 1) + c.g == c.g * n) by (nonlinear_arith);
        assert(c.b * (n - 1) + c.b == c.b * n) by (nonlinear_arith);
    }
}

/// A grid position maps to a pixel index inside the raster.
pub proof fn lemma_grid_index(x: int, y: int, w: int, h: int)
    requires
        0 <= x < w,
        0 <= y < h,
    ensures
        0 <= y * w + x < w * h,
{
    assert(0 <= y * w + x < w * h) by (nonlinear_arith)
        requires
            0 <= x < w,
            0 <= y < h,
    ;
}

/// Distinct grid positions map to distinct pixel indices.
pub proof fn lemma_grid_index_injective(x1: int, y1: int, x2: int, y2: int, w: int)
    requires
        0 <= x1 < w,
        0 <= x2 < w,
        y1 * w + x1 == y2 * w + x2,
    ensures
        x1 == x2 && y1 == y2,
{
    assert(x1 == x2 && y1 == y2) by (nonlinear_arith)
        requires
            0 <= x1 < w,
            0 <= x2 < w,
            y1 * w + x1 == y2 * w + x2,
    ;
}

} // verus!

use vstd::prelude::*;

verus! {

/// An exact RGB color: three 8-bit channels. Equality is exact, with no
/// tolerance.
#[derive(PartialEq, Eq, Structural, Clone, Copy, Debug)]
pub struct MyColor {
    pub r: u8,
    pub g: u8,
    pub b: u8,
}

impl MyColor {
    /// Squared Euclidean distance between two colors in RGB space.
    ///
    /// The metric of this library is plain Euclidean RGB distance; every
    /// comparison the library makes is between distances of color pairs, and
    /// the square root is monotone, so distances are kept squared and exact in
    /// integers. The largest possible value is 3 * 255 * 255 = 195075.
    pub open spec fn dist_sq(a: MyColor, b: MyColor) -> int {
        (a.r - b.r) * (a.r - b.r) + (a.g - b.g) * (a.g - b.g) + (a.b - b.b) * (a.b - b.b)
    }

    pub fn new(r: u8, g: u8, b: u8) -> (c: MyColor)
        ensures
            c.r == r,
            c.g == g,
            c.b == b,
    {
        MyColor { r, g, b }
    }

    /// The squared Euclidean distance between `self` and `other`.
    pub fn distance(&self, other: &MyColor) -> (d: u32)
        ensures
            d == MyColor::dist_sq(*self, *other),
            d <= 195075,
    {
        let dr: i32 = self.r as i32 - other.r as i32;
        let dg: i32 = self.g as i32 - other.g as i32;
        let db: i32 = self.b as i32 - other.b as i32;
        proof {
            assert(dr * dr <= 65025 && dg * dg <= 65025 && db * db <= 65025
                && dr * dr >= 0 && dg * dg >= 0 && db * db >= 0) by (nonlinear_arith)
                requires
                    -255 <= dr <= 255,
                    -255 <= dg <= 255,
                    -255 <= db <= 255,
            ;
        }
        (dr * dr + dg * dg + db * db) as u32
    }
}

/// The distance from a color to itself is zero; a nonzero distance means the
/// colors differ; and the metric is symmetric.
pub proof fn lemma_distance_metric(a: MyColor, b: MyColor)
    ensures
        MyColor::dist_sq(a, a) == 0,
        MyColor::dist_sq(a, b) == 0 <==> a == b,
        MyColor::dist_sq(a, b) == MyColor::dist_sq(b, a),
{
    assert(MyColor::dist_sq(a, a) == 0) by (nonlinear_arith);
    assert(MyColor::dist_sq(a, b) == 0 <==> a.r == b.r && a.g == b.g && a.b == b.b)
        by (nonlinear_arith);
    assert(MyColor::dist_sq(a, b) == MyColor::dist_sq(b, a)) by (nonlinear_arith);
}

} // verus!

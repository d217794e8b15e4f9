//! How a rectangle of the projected plane is laid onto an image.
//!
//! The rectangle is scaled by one factor in both directions, as far as the
//! image allows, and centred in the image. North is up: the lines of the
//! image are counted from the top. Positions in the image are given in
//! parts of a pixel.

use vstd::arithmetic::div_mod::{
    lemma_div_is_ordered, lemma_div_pos_is_pos, lemma_fundamental_div_mod,
    lemma_fundamental_div_mod_converse_div,
};
use vstd::prelude::*;

use crate::geo::{BoundingBox3035, ProjPoint};

verus! {

/// The number of parts that a pixel is divided into.
pub const SUBPIXELS: i64 = 256;

/// A rectangle of the projected plane and the size of the image that it is
/// laid onto. The rectangle and the image are not empty.
#[derive(Copy, Clone, Debug)]
pub struct Viewport {
    bounds: BoundingBox3035,
    width: u32,
    height: u32,
}

/// A position in an image, in parts of a pixel: `x` from the left edge to
/// the right, `y` from the top edge down.
#[derive(Copy, Clone, Debug, PartialEq, Eq, Structural)]
pub struct PixelPoint {
    pub x: i128,
    pub y: i128,
}

/// Whether a rectangle with the sides `span_east` and `span_north` fills the
/// width of an image before it fills its height.
pub open spec fn fits_width(span_east: int, span_north: int, width: int, height: int) -> bool {
    span_east * height > width * span_north
}

/// The distance from the start of an image, along the direction in which the
/// rectangle fills the image, of what lies `off` from the start of the
/// rectangle: the rectangle is `span` long, the image `size`.
pub open spec fn along(off: int, span: int, size: int) -> int {
    (off * size * SUBPIXELS) / span
}

/// The distance from the start of an image, along the direction in which the
/// rectangle leaves a margin, of what lies `off` from the start of the
/// rectangle. The rectangle is `span` long in this direction and
/// `other_span` in the other, and the image `size` and `other_size`. The
/// margins at the two ends are equal.
pub open spec fn across(off: int, span: int, size: int, other_span: int, other_size: int) -> int {
    (SUBPIXELS * ((size * other_span - span * other_size) + 2 * off * other_size)) / (2
        * other_span)
}

fn floor_div(a: i128, b: i128) -> (q: i128)
    requires
        0 < b < 0x1_0000_0000_0000_0000_0000_0000,
        -0x1_0000_0000_0000_0000_0000_0000 < a < 0x1_0000_0000_0000_0000_0000_0000,
    ensures
        q == a as int / b as int,
{
    if a >= 0 {
        a / b
    } else {
        let n: i128 = -a;
        let up: i128 = (n + (b - 1)) / b;
        proof {
            let q0 = (n + b - 1) as int / b as int;
            let r0 = (n + b - 1) as int % b as int;
            lemma_fundamental_div_mod((n + b - 1) as int, b as int);
            assert(0 <= r0 < b);
            assert(a as int == (-q0) * b + (b - 1 - r0)) by (nonlinear_arith)
                requires
                    n + b - 1 == b * q0 + r0,
                    a == -n,
            ;
            lemma_fundamental_div_mod_converse_div(a as int, b as int, -q0, b - 1 - r0);
            lemma_div_pos_is_pos((n + b - 1) as int, b as int);
        }
        -up
    }
}

impl Viewport {
    #[verifier::type_invariant]
    spec fn inv(&self) -> bool {
        &&& self.bounds.sw.east < self.bounds.ne.east
        &&& self.bounds.sw.north < self.bounds.ne.north
        &&& self.width > 0
        &&& self.height > 0
    }

    /// The rectangle that is laid onto the image.
    pub closed spec fn bounds(&self) -> BoundingBox3035 {
        self.bounds
    }

    /// The width of the image in pixels.
    pub closed spec fn width(&self) -> u32 {
        self.width
    }

    /// The height of the image in pixels.
    pub closed spec fn height(&self) -> u32 {
        self.height
    }

    /// The extent of the rectangle from west to east.
    pub open spec fn span_east(&self) -> int {
        self.bounds().ne.east - self.bounds().sw.east
    }

    /// The extent of the rectangle from south to north.
    pub open spec fn span_north(&self) -> int {
        self.bounds().ne.north - self.bounds().sw.north
    }

    /// Where in the image, from its left edge, what lies at `east` comes.
    pub open spec fn x_of(&self, east: int) -> int {
        let off = east - self.bounds().sw.east;
        if fits_width(self.span_east(), self.span_north(), self.width() as int, self.height() as int) {
            along(off, self.span_east(), self.width() as int)
        } else {
            across(
                off,
                self.span_east(),
                self.width() as int,
                self.span_north(),
                self.height() as int,
            )
        }
    }

    /// Where in the image, from its top edge, what lies at `north` comes.
    pub open spec fn y_of(&self, north: int) -> int {
        let off = self.bounds().ne.north - north;
        if fits_width(self.span_east(), self.span_north(), self.width() as int, self.height() as int) {
            across(
                off,
                self.span_north(),
                self.height() as int,
                self.span_east(),
                self.width() as int,
            )
        } else {
            along(off, self.span_north(), self.height() as int)
        }
    }

    /// Lays `bounds` onto an image of `width` by `height` pixels. There is
    /// no way to do so where the rectangle or the image is empty.
    pub fn new(bounds: BoundingBox3035, width: u32, height: u32) -> (r: Option<Viewport>)
        ensures
            match r {
                Some(v) => {
                    &&& v.bounds() == bounds
                    &&& v.width() == width
                    &&& v.height() == height
                    &&& bounds.sw.east < bounds.ne.east
                    &&& bounds.sw.north < bounds.ne.north
                    &&& width > 0
                    &&& height > 0
                },
                None => bounds.sw.east >= bounds.ne.east || bounds.sw.north >= bounds.ne.north
                    || width == 0 || height == 0,
            },
    {
        if bounds.sw.east < bounds.ne.east && bounds.sw.north < bounds.ne.north && width > 0
            && height > 0 {
            Some(Viewport { bounds, width, height })
        } else {
            None
        }
    }

    /// Where in the image `p` comes. What lies in the rectangle comes to lie
    /// in the image.
    #[verifier::rlimit(50)]
    pub fn pixel(&self, p: ProjPoint) -> (r: PixelPoint)
        ensures
            r.x == self.x_of(p.east as int),
            r.y == self.y_of(p.north as int),
            self.bounds().contains(p) ==> 0 <= r.x <= self.width() * SUBPIXELS && 0 <= r.y
                <= self.height() * SUBPIXELS,
    {
        proof {
            use_type_invariant(self);
        }
        let span_east: i128 = self.bounds.ne.east as i128 - self.bounds.sw.east as i128;
        let span_north: i128 = self.bounds.ne.north as i128 - self.bounds.sw.north as i128;
        let width: i128 = self.width as i128;
        let height: i128 = self.height as i128;
        let off_x: i128 = p.east as i128 - self.bounds.sw.east as i128;
        let off_y: i128 = self.bounds.ne.north as i128 - p.north as i128;
        proof {
            lemma_products(span_east as int, height as int);
            lemma_products(span_east as int, width as int);
            lemma_products(span_north as int, height as int);
            lemma_products(span_north as int, width as int);
            lemma_products(off_x as int, width as int);
            lemma_products(off_x as int, height as int);
            lemma_products(off_y as int, width as int);
            lemma_products(off_y as int, height as int);
            assert(width * span_north == span_north * width) by (nonlinear_arith);
            assert(height * span_east == span_east * height) by (nonlinear_arith);
            assert(2 * off_x * height == 2 * (off_x * height)) by (nonlinear_arith);
            assert(2 * off_y * width == 2 * (off_y * width)) by (nonlinear_arith);
        }
        let wide: bool = span_east * height > width * span_north;
        let x: i128;
        let y: i128;
        if wide {
            x = floor_div(off_x * width * 256, span_east);
            let slack: i128 = height * span_east - span_north * width;
            y = floor_div(256 * (slack + 2 * off_y * width), 2 * span_east);
        } else {
            let slack: i128 = width * span_north - span_east * height;
            x = floor_div(256 * (slack + 2 * off_x * height), 2 * span_north);
            y = floor_div(off_y * height * 256, span_north);
        }
        proof {
            if self.bounds().contains(p) {
                if wide {
                    lemma_along_inside(off_x as int, span_east as int, width as int);
                    lemma_across_inside(
                        off_y as int,
                        span_north as int,
                        height as int,
                        span_east as int,
                        width as int,
                    );
                } else {
                    lemma_across_inside(
                        off_x as int,
                        span_east as int,
                        width as int,
                        span_north as int,
                        height as int,
                    );
                    lemma_along_inside(off_y as int, span_north as int, height as int);
                }
            }
        }
        PixelPoint { x, y }
    }
}

proof fn lemma_products(a: int, b: int)
    requires
        -0x1_0000_0000 <= a <= 0x1_0000_0000,
        0 <= b <= 0x1_0000_0000,
    ensures
        -0x1_0000_0000_0000_0000 <= a * b <= 0x1_0000_0000_0000_0000,
{
    assert(-0x1_0000_0000_0000_0000 <= a * b <= 0x1_0000_0000_0000_0000) by (nonlinear_arith)
        requires
            -0x1_0000_0000 <= a <= 0x1_0000_0000,
            0 <= b <= 0x1_0000_0000,
    ;
}

/// Along the direction in which the rectangle fills the image, what lies in
/// the rectangle comes to lie in the image.
pub proof fn lemma_along_inside(off: int, span: int, size: int)
    requires
        0 <= off <= span,
        0 < span,
        0 < size,
    ensures
        0 <= along(off, span, size) <= size * SUBPIXELS,
{
    assert(0 <= off * size * SUBPIXELS <= span * (size * SUBPIXELS)) by (nonlinear_arith)
        requires
            0 <= off <= span,
            0 < size,
    ;
    lemma_div_pos_is_pos(off * size * SUBPIXELS, span);
    lemma_div_is_ordered(off * size * SUBPIXELS, span * (size * SUBPIXELS), span);
    assert(span * (size * SUBPIXELS) == (size * SUBPIXELS) * span + 0) by (nonlinear_arith);
    lemma_fundamental_div_mod_converse_div(span * (size * SUBPIXELS), span, size * SUBPIXELS, 0);
}

/// Along the direction in which the rectangle leaves a margin, what lies in
/// the rectangle comes to lie in the image.
pub proof fn lemma_across_inside(off: int, span: int, size: int, other_span: int, other_size: int)
    requires
        0 <= off <= span,
        0 < span,
        0 < size,
        0 < other_span,
        0 < other_size,
        span * other_size <= size * other_span,
    ensures
        0 <= across(off, span, size, other_span, other_size) <= size * SUBPIXELS,
{
    let top = SUBPIXELS * ((size * other_span - span * other_size) + 2 * off * other_size);
    let full = (2 * other_span) * (size * SUBPIXELS);
    assert(0 <= top <= full) by (nonlinear_arith)
        requires
            top == SUBPIXELS * ((size * other_span - span * other_size) + 2 * off * other_size),
            full == (2 * other_span) * (size * SUBPIXELS),
            0 <= off <= span,
            0 < other_size,
            0 < other_span,
            0 < size,
            span * other_size <= size * other_span,
    ;
    lemma_div_pos_is_pos(top, 2 * other_span);
    lemma_div_is_ordered(top, full, 2 * other_span);
    assert(full == (size * SUBPIXELS) * (2 * other_span) + 0) by (nonlinear_arith)
        requires
            full == (2 * other_span) * (size * SUBPIXELS),
    ;
    lemma_fundamental_div_mod_converse_div(full, 2 * other_span, size * SUBPIXELS, 0);
}

/// Along the direction in which the rectangle leaves a margin, the margin
/// before the rectangle and the margin after it are the same, to one part of
/// a pixel.
pub proof fn lemma_centred(span: int, size: int, other_span: int, other_size: int)
    requires
        0 < span,
        0 < size,
        0 < other_span,
        0 < other_size,
        span * other_size <= size * other_span,
    ensures
        ({
            let before = across(0, span, size, other_span, other_size);
            let after = size * SUBPIXELS - across(span, span, size, other_span, other_size);
            before <= after <= before + 1
        }),
{
    let d = 2 * other_span;
    let a = SUBPIXELS * ((size * other_span - span * other_size) + 2 * 0 * other_size);
    let x = SUBPIXELS * ((size * other_span - span * other_size) + 2 * span * other_size);
    let q = a / d;
    let r = a % d;
    lemma_fundamental_div_mod(a, d);
    assert(0 <= r < d);
    assert(x == d * (size * SUBPIXELS) - a) by (nonlinear_arith)
        requires
            d == 2 * other_span,
            a == SUBPIXELS * ((size * other_span - span * other_size) + 2 * 0 * other_size),
            x == SUBPIXELS * ((size * other_span - span * other_size) + 2 * span * other_size),
    ;
    if r == 0 {
        assert(x == (size * SUBPIXELS - q) * d + 0) by (nonlinear_arith)
            requires
                x == d * (size * SUBPIXELS) - a,
                a == d * q + r,
                r == 0,
        ;
        lemma_fundamental_div_mod_converse_div(x, d, size * SUBPIXELS - q, 0);
    } else {
        assert(x == (size * SUBPIXELS - q - 1) * d + (d - r)) by (nonlinear_arith)
            requires
                x == d * (size * SUBPIXELS) - a,
                a == d * q + r,
        ;
        lemma_fundamental_div_mod_converse_div(x, d, size * SUBPIXELS - q - 1, d - r);
    }
}

/// North is up and east is right: what lies farther east comes farther
/// right in the image, and what lies farther north comes farther up.
pub proof fn lemma_north_is_up(v: Viewport, a: ProjPoint, b: ProjPoint)
    requires
        v.span_east() > 0,
        v.span_north() > 0,
        v.width() > 0,
        v.height() > 0,
    ensures
        a.east <= b.east ==> v.x_of(a.east as int) <= v.x_of(b.east as int),
        a.north <= b.north ==> v.y_of(a.north as int) >= v.y_of(b.north as int),
{
    let w = v.width() as int;
    let h = v.height() as int;
    let se = v.span_east();
    let sn = v.span_north();
    if a.east <= b.east {
        let oa = a.east - v.bounds().sw.east;
        let ob = b.east - v.bounds().sw.east;
        if fits_width(se, sn, w, h) {
            assert(oa * w * SUBPIXELS <= ob * w * SUBPIXELS) by (nonlinear_arith)
                requires
                    oa <= ob,
                    w > 0,
            ;
            lemma_div_is_ordered(oa * w * SUBPIXELS, ob * w * SUBPIXELS, se);
        } else {
            assert(SUBPIXELS * ((w * sn - se * h) + 2 * oa * h) <= SUBPIXELS * ((w * sn - se * h) + 2
                * ob * h)) by (nonlinear_arith)
                requires
                    oa <= ob,
                    h > 0,
            ;
            lemma_div_is_ordered(
                SUBPIXELS * ((w * sn - se * h) + 2 * oa * h),
                SUBPIXELS * ((w * sn - se * h) + 2 * ob * h),
                2 * sn,
            );
        }
    }
    if a.north <= b.north {
        let oa = v.bounds().ne.north - a.north;
        let ob = v.bounds().ne.north - b.north;
        if fits_width(se, sn, w, h) {
            assert(SUBPIXELS * ((h * se - sn * w) + 2 * ob * w) <= SUBPIXELS * ((h * se - sn * w) + 2
                * oa * w)) by (nonlinear_arith)
                requires
                    ob <= oa,
                    w > 0,
            ;
            lemma_div_is_ordered(
                SUBPIXELS * ((h * se - sn * w) + 2 * ob * w),
                SUBPIXELS * ((h * se - sn * w) + 2 * oa * w),
                2 * se,
            );
        } else {
            assert(ob * h * SUBPIXELS <= oa * h * SUBPIXELS) by (nonlinear_arith)
                requires
                    ob <= oa,
                    h > 0,
            ;
            lemma_div_is_ordered(ob * h * SUBPIXELS, oa * h * SUBPIXELS, sn);
        }
    }
}

} // verus!

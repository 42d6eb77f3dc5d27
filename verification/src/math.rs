//! Pixel-space geometry: 2D vectors, triangles, and exact scanline
//! interpolation for the scan-conversion engine.

use vstd::prelude::*;

verus! {

use vstd::arithmetic::div_mod::{lemma_div_is_ordered, lemma_div_multiples_vanish};
use vstd::arithmetic::mul::lemma_mul_is_commutative;

/// A two-component vector. Instantiated with `usize` for pixel coordinates.
#[derive(Clone, Copy, Debug, PartialEq, Eq)]
pub struct Vector2<T> {
    pub x: T,
    pub y: T,
}

impl<T> Vector2<T> {
    pub fn new(x: T, y: T) -> (r: Self)
        ensures
            r.x == x,
            r.y == y,
    {
        Vector2 { x, y }
    }
}

impl Vector2<usize> {
    /// Steps from `self` towards `other` by the integer parameter `t`,
    /// componentwise: `self + t * (other - self)`.
    pub fn interpolate(self, other: Vector2<usize>, t: usize) -> (r: Vector2<usize>)
        requires
            self.x <= other.x,
            self.y <= other.y,
            self.x + t * (other.x - self.x) <= usize::MAX,
            self.y + t * (other.y - self.y) <= usize::MAX,
        ensures
            r.x == self.x + t * (other.x - self.x),
            r.y == self.y + t * (other.y - self.y),
    {
        Vector2::new(self.x + t * (other.x - self.x), self.y + t * (other.y - self.y))
    }
}

/// Linear step from `y0` towards `y2`, scaled by where `x0` sits between
/// `y0` and `x2`: `y0 + (y2 - y0) * (x0 - y0) / (x2 - x0)`.
pub fn interpolate(y0: usize, x0: usize, y2: usize, x2: usize) -> (r: usize)
    requires
        y0 <= y2,
        y0 <= x0,
        x0 < x2,
        (y2 - y0) * (x0 - y0) <= usize::MAX,
        y0 + (y2 - y0) * (x0 - y0) / (x2 - x0) <= usize::MAX,
    ensures
        r == y0 + (y2 - y0) * (x0 - y0) / (x2 - x0),
{
    proof {
        lemma_div_is_ordered(0, (y2 - y0) * (x0 - y0), x2 - x0);
        lemma_div_is_ordered(
            (y2 - y0) * (x0 - y0),
            usize::MAX as int,
            x2 - x0,
        );
        assert(usize::MAX as int / (x2 - x0) <= usize::MAX as int) by (nonlinear_arith)
            requires
                x2 - x0 >= 1,
        ;
    }
    y0 + (y2 - y0) * (x0 - y0) / (x2 - x0)
}

/// Three pixel-space vertices forming a closed 2D polygon. Degenerate
/// (collinear or coincident) vertices are legal.
#[derive(Clone, Copy, Debug, PartialEq, Eq)]
pub struct Triangle {
    pub c1: Vector2<usize>,
    pub c2: Vector2<usize>,
    pub c3: Vector2<usize>,
}

impl Triangle {
    pub fn new(c1: Vector2<usize>, c2: Vector2<usize>, c3: Vector2<usize>) -> (r: Self)
        ensures
            r.c1 == c1,
            r.c2 == c2,
            r.c3 == c3,
    {
        Self { c1, c2, c3 }
    }
}

/// Four pixel-space vertices; a data shape only, consumed by no
/// rasterization routine here.
#[derive(Clone, Copy, Debug, PartialEq, Eq)]
pub struct Quad {
    pub c1: Vector2<usize>,
    pub c2: Vector2<usize>,
    pub c3: Vector2<usize>,
    pub c4: Vector2<usize>,
}

/// The x coordinate where segment `p0`-`p1` crosses scanline `y`: the exact
/// linear interpolation `p0.x + (y - p0.y) * (p1.x - p0.x) / (p1.y - p0.y)`,
/// rounded down, written over a common denominator. A horizontal segment
/// yields `p0.x`.
pub open spec fn scanline_x(p0: Vector2<usize>, p1: Vector2<usize>, y: int) -> int {
    if p0.y == p1.y {
        p0.x as int
    } else {
        (p0.x * (p1.y - y) + p1.x * (y - p0.y)) / (p1.y - p0.y)
    }
}

/// Where segment `p0`-`p1` crosses scanline `y`, by linear interpolation on
/// `t = (y - p0.y) / (p1.y - p0.y)`; a horizontal edge returns `p0.x`
/// outright, so no division by zero can arise.
pub fn interpolate_x(p0: Vector2<usize>, p1: Vector2<usize>, y: usize) -> (r: usize)
    requires
        p0.y != p1.y ==> p0.y < p1.y && p0.y <= y && y <= p1.y,
    ensures
        r == scanline_x(p0, p1, y as int),
{
    if p1.y == p0.y {
        return p0.x;
    }
    proof {
        assert(p0.x * (p1.y - y) <= u128::MAX && p1.x * (y - p0.y) <= u128::MAX)
            by (nonlinear_arith)
            requires
                0 <= p0.x <= u64::MAX,
                0 <= p1.x <= u64::MAX,
                0 <= p1.y - y <= u64::MAX,
                0 <= y - p0.y <= u64::MAX,
        ;
    }
    let dyt: u128 = (p1.y - p0.y) as u128;
    let n1: u128 = (p0.x as u128) * ((p1.y - y) as u128);
    let n2: u128 = (p1.x as u128) * ((y - p0.y) as u128);
    proof {
        let mx: int = if p0.x <= p1.x { p1.x as int } else { p0.x as int };
        assert(n1 + n2 <= mx * dyt) by (nonlinear_arith)
            requires
                p0.x <= mx,
                p1.x <= mx,
                0 <= p1.y - y,
                0 <= y - p0.y,
                n1 == p0.x * (p1.y - y),
                n2 == p1.x * (y - p0.y),
                dyt == (p1.y - y) + (y - p0.y),
        ;
        assert(mx * dyt <= u128::MAX) by (nonlinear_arith)
            requires
                0 <= mx <= usize::MAX,
                0 <= dyt <= usize::MAX,
                usize::MAX <= u64::MAX,
        ;
        lemma_div_is_ordered(n1 as int + n2, mx * dyt, dyt as int);
        lemma_div_multiples_vanish(mx, dyt as int);
        lemma_mul_is_commutative(mx, dyt as int);
    }
    let q: u128 = (n1 + n2) / dyt;
    q as usize
}

/// On a horizontal segment the interpolated crossing is `p0.x` for every
/// scanline: no division by zero arises and the result is deterministic.
pub proof fn lemma_scanline_horizontal(p0: Vector2<usize>, p1: Vector2<usize>, y: int)
    requires
        p0.y == p1.y,
    ensures
        scanline_x(p0, p1, y) == p0.x,
{
}

/// On a non-horizontal segment the interpolated crossing hits each endpoint
/// exactly: at `y == p0.y` it is `p0.x`, and at `y == p1.y` it is `p1.x`.
/// (`p0.y < p1.y` is the domain of `interpolate_x` on non-horizontal input.)
pub proof fn lemma_scanline_endpoints(p0: Vector2<usize>, p1: Vector2<usize>)
    requires
        p0.y < p1.y,
    ensures
        scanline_x(p0, p1, p0.y as int) == p0.x,
        scanline_x(p0, p1, p1.y as int) == p1.x,
{
    let d: int = p1.y - p0.y;
    lemma_div_multiples_vanish(p0.x as int, d);
    lemma_mul_is_commutative(p0.x as int, d);
    lemma_div_multiples_vanish(p1.x as int, d);
    lemma_mul_is_commutative(p1.x as int, d);
}

} // verus!

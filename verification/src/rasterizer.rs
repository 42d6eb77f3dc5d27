//! The frame buffer and its scan-conversion entry points.

use vstd::prelude::*;
use crate::math::{interpolate_x, scanline_x, Triangle, Vector2};

verus! {

use vstd::math::{max, min};

/// The vertices of `t` in ascending-`y` order, ties keeping their stored
/// order (the unique stable sort of `c1`, `c2`, `c3` by `y`).
pub open spec fn tri_sorted(t: Triangle) -> (Vector2<usize>, Vector2<usize>, Vector2<usize>) {
    let (a1, b1, c1) = if t.c2.y < t.c1.y {
        (t.c2, t.c1, t.c3)
    } else {
        (t.c1, t.c2, t.c3)
    };
    let (a2, b2, c2) = if c1.y < b1.y {
        (a1, c1, b1)
    } else {
        (a1, b1, c1)
    };
    if b2.y < a2.y {
        (b2, a2, c2)
    } else {
        (a2, b2, c2)
    }
}

/// The span of cells the filled rasterization of `t` covers on scanline `y`:
/// with vertices sorted to `p0`, `p1`, `p2` by ascending `y`, the left
/// boundary follows edge `p0`-`p1` above the middle vertex and edge
/// `p1`-`p2` from it on, the right boundary follows edge `p0`-`p2`, and the
/// pair is ordered so the smaller coordinate comes first.
pub open spec fn tri_span(t: Triangle, y: int) -> (int, int) {
    let (p0, p1, p2) = tri_sorted(t);
    let xl = if y >= p1.y {
        scanline_x(p1, p2, y)
    } else {
        scanline_x(p0, p1, y)
    };
    let xr = scanline_x(p0, p2, y);
    if xl > xr {
        (xr, xl)
    } else {
        (xl, xr)
    }
}

/// Whether the filled rasterization of `t` covers cell `(x, y)`.
pub open spec fn tri_covers(t: Triangle, x: int, y: int) -> bool {
    let (p0, p1, p2) = tri_sorted(t);
    &&& p0.y <= y <= p2.y
    &&& tri_span(t, y).0 <= x <= tri_span(t, y).1
}

/// A triangle whose three vertices coincide at `v` covers exactly the
/// single cell at `v` and nothing else: filling it cannot spill over, and
/// the scan conversion of it terminates like any other (every fill loop
/// carries a `decreases` measure).
pub proof fn lemma_degenerate_covers(v: Vector2<usize>, x: int, y: int)
    ensures
        tri_covers(Triangle { c1: v, c2: v, c3: v }, x, y) <==> (x == v.x && y == v.y),
{
}

/// The value of cell `(x, y)` after filling the triangles of `ts` in order
/// over a base value `c`: each triangle that covers the cell overwrites it,
/// so later triangles win (painter's algorithm).
pub open spec fn painted_cell(ts: Seq<Triangle>, c: char, x: int, y: int) -> char
    decreases ts.len(),
{
    if ts.len() == 0 {
        c
    } else {
        if tri_covers(ts.last(), x, y) {
            '#'
        } else {
            painted_cell(ts.drop_last(), c, x, y)
        }
    }
}

/// The cells the error-stepping line walk visits from `(x0, y0)` until it
/// reaches `(x1, y1)`: at each step the error term `err` decides whether to
/// advance along x (by `sx`), along y (by `sy`), or both. `fuel` bounds the
/// recursion; the walk from a segment's start with `fuel == dx - dy`
/// provably reaches the end before the fuel runs out.
pub open spec fn line_walk(
    x0: int,
    y0: int,
    x1: int,
    y1: int,
    dx: int,
    dy: int,
    sx: int,
    sy: int,
    err: int,
    fuel: nat,
) -> Seq<(int, int)>
    decreases fuel,
{
    if (x0 == x1 && y0 == y1) || fuel == 0 {
        seq![(x0, y0)]
    } else {
        let e2 = 2 * err;
        let nx = if e2 >= dy {
            x0 + sx
        } else {
            x0
        };
        let e1 = if e2 >= dy {
            err + dy
        } else {
            err
        };
        let ny = if e2 <= dx {
            y0 + sy
        } else {
            y0
        };
        let ne = if e2 <= dx {
            e1 + dx
        } else {
            e1
        };
        seq![(x0, y0)] + line_walk(nx, ny, x1, y1, dx, dy, sx, sy, ne, (fuel - 1) as nat)
    }
}

/// The exact cells the line rasterizer visits for the segment from `start`
/// to `end`, in visiting order.
pub open spec fn line_cells(start: Vector2<usize>, end: Vector2<usize>) -> Seq<(int, int)> {
    let x0 = start.x as int;
    let y0 = start.y as int;
    let x1 = end.x as int;
    let y1 = end.y as int;
    let dx = if x1 >= x0 {
        x1 - x0
    } else {
        x0 - x1
    };
    let dy = if y1 >= y0 {
        y0 - y1
    } else {
        y1 - y0
    };
    let sx: int = if x0 < x1 {
        1
    } else {
        -1
    };
    let sy: int = if y0 < y1 {
        1
    } else {
        -1
    };
    line_walk(x0, y0, x1, y1, dx, dy, sx, sy, dx + dy, (dx - dy) as nat)
}

/// Appending to a sequence adds exactly one member.
proof fn lemma_push_contains<T>(s: Seq<T>, v: T, x: T)
    ensures
        s.push(v).contains(x) <==> (s.contains(x) || x == v),
{
    assert(s.push(v)[s.len() as int] == v);
    if s.contains(x) {
        let k = choose|k: int| 0 <= k < s.len() && s[k] == x;
        assert(s.push(v)[k] == x);
    }
    if s.push(v).contains(x) && x != v {
        let k = choose|k: int| 0 <= k < s.push(v).len() && s.push(v)[k] == x;
        assert(s[k] == x);
    }
}

/// A 2D grid of display cells addressed by `(x, y)`, row-major
/// (`index == y * width + x`).
#[derive(Clone, Debug)]
pub struct Framebuffer {
    pub width: usize,
    pub height: usize,
    pub data: Vec<char>,
}

/// The glyph kind used when a primitive is drawn.
pub enum CharacterType {
    Flat,
    LightlyShaded,
}

impl CharacterType {
    /// The display symbol for this glyph kind.
    pub open spec fn as_char_spec(self) -> char {
        match self {
            CharacterType::Flat => '#',
            CharacterType::LightlyShaded => '@',
        }
    }

    /// Maps the glyph kind to its display symbol.
    pub fn as_char(self) -> (c: char)
        ensures
            c == self.as_char_spec(),
    {
        match self {
            CharacterType::Flat => '#',
            CharacterType::LightlyShaded => '@',
        }
    }
}

impl Framebuffer {
    /// The grid holds exactly one cell per `(x, y)` position.
    pub open spec fn wf(self) -> bool {
        self.data.len() == self.width * self.height
    }

    /// The cell value at `(x, y)`.
    pub open spec fn cell(self, x: int, y: int) -> char {
        self.data@[y * self.width + x]
    }

    /// Whether `(x, y)` lies inside the grid.
    pub open spec fn in_bounds(self, x: int, y: int) -> bool {
        0 <= x < self.width && 0 <= y < self.height
    }

    /// A blank buffer of the given dimensions, every cell a space.
    pub fn new(width: usize, height: usize) -> (r: Self)
        requires
            width * height <= usize::MAX,
        ensures
            r.wf(),
            r.width == width,
            r.height == height,
            forall|x: int, y: int| r.in_bounds(x, y) ==> r.cell(x, y) == ' ',
    {
        proof {
            vstd::arithmetic::mul::lemma_mul_nonnegative(width as int, height as int);
        }
        let n: usize = width * height;
        let mut data: Vec<char> = Vec::new();
        let mut i: usize = 0;
        while i < n
            invariant
                i <= n,
                data@.len() == i,
                forall|k: int| 0 <= k < i ==> data@[k] == ' ',
            decreases n - i,
        {
            data.push(' ');
            i = i + 1;
        }
        let r = Framebuffer { width, height, data };
        proof {
            assert forall|x: int, y: int| r.in_bounds(x, y) implies r.cell(x, y) == ' ' by {
                lemma_row_major_index_bound(x, y, width as int, height as int);
            }
        }
        r
    }

    /// The terminal's reported size in cells, or a zero-sized fallback when
    /// no size is available.
    pub fn get_terminal_size() -> (r: Vector2<usize>)
        ensures
            r.x <= u16::MAX,
            r.y <= u16::MAX,
    {
        match query_terminal_size() {
            Some((w, h)) => Vector2 { x: w as usize, y: h as usize },
            None => Vector2 { x: 0, y: 0 },
        }
    }

    /// A buffer sized to the terminal's reported dimensions (zero-sized when
    /// they are unavailable), every cell blank.
    pub fn from_terminal() -> (r: Self)
        ensures
            r.wf(),
            r.width <= u16::MAX,
            r.height <= u16::MAX,
            forall|x: int, y: int| r.in_bounds(x, y) ==> r.cell(x, y) == ' ',
    {
        let size: Vector2<usize> = Self::get_terminal_size();
        proof {
            assert(usize::MAX >= 0xFFFF_FFFF);
            assert(size.x * size.y <= usize::MAX) by (nonlinear_arith)
                requires
                    size.x <= u16::MAX,
                    size.y <= u16::MAX,
                    usize::MAX >= 0xFFFF_FFFF,
            ;
        }
        Self::new(size.x, size.y)
    }

    /// The cell at `point`, or no value when `point` lies outside the grid.
    pub fn get(&self, point: Vector2<usize>) -> (r: Option<char>)
        requires
            self.wf(),
        ensures
            self.in_bounds(point.x as int, point.y as int) ==> r == Some(
                self.cell(point.x as int, point.y as int),
            ),
            !self.in_bounds(point.x as int, point.y as int) ==> r is None,
    {
        if point.x < self.width && point.y < self.height {
            proof {
                lemma_row_major_index_bound(
                    point.x as int,
                    point.y as int,
                    self.width as int,
                    self.height as int,
                );
            }
            Some(self.data[point.y * self.width + point.x])
        } else {
            None
        }
    }

    /// Writes `value` at `point`; a write outside the grid is dropped.
    pub fn set(&mut self, point: Vector2<usize>, value: char)
        requires
            old(self).wf(),
        ensures
            final(self).wf(),
            final(self).width == old(self).width,
            final(self).height == old(self).height,
            old(self).in_bounds(point.x as int, point.y as int) ==> forall|x: int, y: int|
                final(self).in_bounds(x, y) ==> final(self).cell(x, y) == (if x == point.x && y
                    == point.y {
                    value
                } else {
                    old(self).cell(x, y)
                }),
            !old(self).in_bounds(point.x as int, point.y as int) ==> *final(self) == *old(self),
    {
        if point.x < self.width && point.y < self.height {
            proof {
                lemma_row_major_index_bound(
                    point.x as int,
                    point.y as int,
                    self.width as int,
                    self.height as int,
                );
            }
            let ghost prev = *self;
            let idx: usize = point.y * self.width + point.x;
            self.data.set(idx, value);
            proof {
                assert forall|x: int, y: int| final(self).in_bounds(x, y) implies final(self).cell(
                    x,
                    y,
                ) == (if x == point.x && y == point.y {
                    value
                } else {
                    prev.cell(x, y)
                }) by {
                    lemma_row_major_index_bound(x, y, self.width as int, self.height as int);
                    if y * self.width + x == idx {
                        lemma_row_major_index_injective(
                            x,
                            y,
                            point.x as int,
                            point.y as int,
                            self.width as int,
                        );
                    }
                }
            }
        }
    }

    /// Draws the three edges of `triangle` (`c1`-`c2`, `c2`-`c3`, `c3`-`c1`)
    /// as lines with the flat glyph: exactly the cells of the three edges'
    /// walks are painted, and each vertex inside the grid ends up painted.
    pub fn draw_wireframe_triangle(&mut self, triangle: Triangle)
        requires
            old(self).wf(),
            triangle.c1.x as int <= isize::MAX as int / 4,
            triangle.c1.y as int <= isize::MAX as int / 4,
            triangle.c2.x as int <= isize::MAX as int / 4,
            triangle.c2.y as int <= isize::MAX as int / 4,
            triangle.c3.x as int <= isize::MAX as int / 4,
            triangle.c3.y as int <= isize::MAX as int / 4,
        ensures
            final(self).wf(),
            final(self).width == old(self).width,
            final(self).height == old(self).height,
            forall|i: int, j: int| final(self).in_bounds(i, j) ==> #[trigger] final(self).cell(
                i,
                j,
            ) == (if line_cells(triangle.c1, triangle.c2).contains((i, j)) || line_cells(
                triangle.c2,
                triangle.c3,
            ).contains((i, j)) || line_cells(triangle.c3, triangle.c1).contains((i, j)) {
                '#'
            } else {
                old(self).cell(i, j)
            }),
            old(self).in_bounds(triangle.c1.x as int, triangle.c1.y as int) ==> final(self).cell(
                triangle.c1.x as int,
                triangle.c1.y as int,
            ) == '#',
            old(self).in_bounds(triangle.c2.x as int, triangle.c2.y as int) ==> final(self).cell(
                triangle.c2.x as int,
                triangle.c2.y as int,
            ) == '#',
            old(self).in_bounds(triangle.c3.x as int, triangle.c3.y as int) ==> final(self).cell(
                triangle.c3.x as int,
                triangle.c3.y as int,
            ) == '#',
    {
        let ghost s0 = *self;
        self.draw_line(triangle.c1, triangle.c2, CharacterType::Flat.as_char());
        let ghost s1 = *self;
        self.draw_line(triangle.c2, triangle.c3, CharacterType::Flat.as_char());
        let ghost s2 = *self;
        self.draw_line(triangle.c3, triangle.c1, CharacterType::Flat.as_char());
        proof {
            assert forall|i: int, j: int| self.in_bounds(i, j) implies #[trigger] self.cell(i, j)
                == (if line_cells(triangle.c1, triangle.c2).contains((i, j)) || line_cells(
                triangle.c2,
                triangle.c3,
            ).contains((i, j)) || line_cells(triangle.c3, triangle.c1).contains((i, j)) {
                '#'
            } else {
                s0.cell(i, j)
            }) by {
                assert(self.cell(i, j) == (if line_cells(triangle.c3, triangle.c1).contains(
                    (i, j),
                ) {
                    '#'
                } else {
                    s2.cell(i, j)
                }));
                assert(s2.cell(i, j) == (if line_cells(triangle.c2, triangle.c3).contains(
                    (i, j),
                ) {
                    '#'
                } else {
                    s1.cell(i, j)
                }));
                assert(s1.cell(i, j) == (if line_cells(triangle.c1, triangle.c2).contains(
                    (i, j),
                ) {
                    '#'
                } else {
                    s0.cell(i, j)
                }));
            }
        }
    }

    /// Fills `triangle` by scan conversion: sorts the vertices by ascending
    /// `y`, then paints every covered cell of every scanline from the top
    /// vertex to the bottom one, dropping writes that fall outside the grid.
    pub fn draw_filled_triangle(&mut self, triangle: Triangle)
        requires
            old(self).wf(),
        ensures
            final(self).wf(),
            final(self).width == old(self).width,
            final(self).height == old(self).height,
            forall|x: int, y: int| final(self).in_bounds(x, y) ==> final(self).cell(x, y) == (
            if tri_covers(triangle, x, y) {
                '#'
            } else {
                old(self).cell(x, y)
            }),
    {
        let mut p0: Vector2<usize> = triangle.c1;
        let mut p1: Vector2<usize> = triangle.c2;
        let mut p2: Vector2<usize> = triangle.c3;
        if p1.y < p0.y {
            let tmp = p0;
            p0 = p1;
            p1 = tmp;
        }
        if p2.y < p1.y {
            let tmp = p1;
            p1 = p2;
            p2 = tmp;
        }
        if p1.y < p0.y {
            let tmp = p0;
            p0 = p1;
            p1 = tmp;
        }
        proof {
            assert((p0, p1, p2) == tri_sorted(triangle));
            assert(p0.y <= p1.y && p1.y <= p2.y);
        }
        let ghost orig = *self;
        let mut y: usize = p0.y;
        loop
            invariant_except_break
                forall|i: int, j: int| self.in_bounds(i, j) ==> #[trigger] self.cell(i, j) == (
                if tri_covers(triangle, i, j) && j < y {
                    '#'
                } else {
                    orig.cell(i, j)
                }),
            invariant
                (p0, p1, p2) == tri_sorted(triangle),
                p0.y <= p1.y <= p2.y,
                p0.y <= y <= p2.y,
                self.wf(),
                self.width == orig.width,
                self.height == orig.height,
            ensures
                self.wf(),
                self.width == orig.width,
                self.height == orig.height,
                forall|i: int, j: int| self.in_bounds(i, j) ==> #[trigger] self.cell(i, j) == (
                if tri_covers(triangle, i, j) {
                    '#'
                } else {
                    orig.cell(i, j)
                }),
            decreases p2.y - y,
        {
            let xl: usize = if y >= p1.y {
                interpolate_x(p1, p2, y)
            } else {
                interpolate_x(p0, p1, y)
            };
            let xr: usize = interpolate_x(p0, p2, y);
            let lo: usize = if xl > xr {
                xr
            } else {
                xl
            };
            let hi: usize = if xl > xr {
                xl
            } else {
                xr
            };
            proof {
                assert(lo == tri_span(triangle, y as int).0);
                assert(hi == tri_span(triangle, y as int).1);
                assert(forall|i: int| tri_covers(triangle, i, y as int) <==> lo <= i <= hi);
            }
            let ghost row_start = *self;
            let mut x: usize = lo;
            loop
                invariant_except_break
                    forall|i: int, j: int| self.in_bounds(i, j) ==> #[trigger] self.cell(i, j) == (
                    if tri_covers(triangle, i, j) && (j < y || (j == y && i < x)) {
                        '#'
                    } else {
                        orig.cell(i, j)
                    }),
                invariant
                    lo <= x <= hi,
                    forall|i: int| tri_covers(triangle, i, y as int) <==> lo <= i <= hi,
                    forall|i: int, j: int|
                        tri_covers(triangle, i, j) ==> p0.y <= j <= p2.y,
                    self.wf(),
                    self.width == orig.width,
                    self.height == orig.height,
                ensures
                    self.wf(),
                    self.width == orig.width,
                    self.height == orig.height,
                    forall|i: int, j: int| self.in_bounds(i, j) ==> #[trigger] self.cell(i, j) == (
                    if tri_covers(triangle, i, j) && j <= y {
                        '#'
                    } else {
                        orig.cell(i, j)
                    }),
                decreases hi - x,
            {
                let ghost before = *self;
                self.set(Vector2 { x, y }, '#');
                proof {
                    assert forall|i: int, j: int| self.in_bounds(i, j) implies #[trigger] self.cell(i, j)
                        == (if tri_covers(triangle, i, j) && (j < y || (j == y && i <= x)) {
                        '#'
                    } else {
                        orig.cell(i, j)
                    }) by {
                        if before.in_bounds(x as int, y as int) {
                            assert(self.cell(i, j) == (if i == x && j == y {
                                '#'
                            } else {
                                before.cell(i, j)
                            }));
                        } else {
                            assert(*self == before);
                        }
                    }
                }
                if x == hi {
                    break ;
                }
                x = x + 1;
            }
            if y == p2.y {
                break ;
            }
            y = y + 1;
        }
    }

    /// Fills each triangle of `triangles` in order; on overlapping cells
    /// later triangles overwrite earlier ones (painter's algorithm, no depth
    /// test).
    pub fn draw_triangle_list_filled(&mut self, triangles: Vec<Triangle>)
        requires
            old(self).wf(),
        ensures
            final(self).wf(),
            final(self).width == old(self).width,
            final(self).height == old(self).height,
            forall|x: int, y: int| final(self).in_bounds(x, y) ==> final(self).cell(x, y)
                == painted_cell(triangles@, old(self).cell(x, y), x, y),
    {
        let ghost orig = *self;
        let mut k: usize = 0;
        while k < triangles.len()
            invariant
                k <= triangles.len(),
                self.wf(),
                self.width == orig.width,
                self.height == orig.height,
                forall|x: int, y: int| self.in_bounds(x, y) ==> self.cell(x, y) == painted_cell(
                    triangles@.take(k as int),
                    orig.cell(x, y),
                    x,
                    y,
                ),
            decreases triangles.len() - k,
        {
            let t: Triangle = triangles[k];
            self.draw_filled_triangle(t);
            proof {
                assert(triangles@.take(k + 1).drop_last() =~= triangles@.take(k as int));
                assert(triangles@.take(k + 1).last() == t);
            }
            k = k + 1;
        }
        proof {
            assert(triangles@.take(triangles.len() as int) =~= triangles@);
        }
    }

    /// Draws the segment from `start` to `end` with `ch` by integer error
    /// stepping. The cells written are exactly those of `line_cells` that
    /// lie inside the grid (writes outside it are dropped); the walk stays
    /// within the bounding box of the two endpoints and visits both of
    /// them, and a horizontal or vertical segment is covered completely.
    #[verifier::rlimit(100)]
    pub fn draw_line(&mut self, start: Vector2<usize>, end: Vector2<usize>, ch: char)
        requires
            old(self).wf(),
            start.x as int <= isize::MAX as int / 4,
            start.y as int <= isize::MAX as int / 4,
            end.x as int <= isize::MAX as int / 4,
            end.y as int <= isize::MAX as int / 4,
        ensures
            final(self).wf(),
            final(self).width == old(self).width,
            final(self).height == old(self).height,
            forall|i: int, j: int| final(self).in_bounds(i, j) ==> #[trigger] final(self).cell(
                i,
                j,
            ) == old(self).cell(i, j) || (final(self).cell(i, j) == ch && min(
                start.x as int,
                end.x as int,
            ) <= i <= max(start.x as int, end.x as int) && min(start.y as int, end.y as int) <= j
                <= max(start.y as int, end.y as int)),
            forall|i: int, j: int| final(self).in_bounds(i, j) ==> #[trigger] final(self).cell(
                i,
                j,
            ) == (if line_cells(start, end).contains((i, j)) {
                ch
            } else {
                old(self).cell(i, j)
            }),
            old(self).in_bounds(start.x as int, start.y as int) ==> final(self).cell(
                start.x as int,
                start.y as int,
            ) == ch,
            old(self).in_bounds(end.x as int, end.y as int) ==> final(self).cell(
                end.x as int,
                end.y as int,
            ) == ch,
            start.y == end.y ==> forall|i: int|
                min(start.x as int, end.x as int) <= i <= max(start.x as int, end.x as int) && old(
                    self,
                ).in_bounds(i, start.y as int) ==> #[trigger] final(self).cell(i, start.y as int)
                    == ch,
            start.x == end.x ==> forall|j: int|
                min(start.y as int, end.y as int) <= j <= max(start.y as int, end.y as int) && old(
                    self,
                ).in_bounds(start.x as int, j) ==> #[trigger] final(self).cell(start.x as int, j)
                    == ch,
    {
        let mut x0: isize = start.x as isize;
        let mut y0: isize = start.y as isize;
        let x1: isize = end.x as isize;
        let y1: isize = end.y as isize;
        let dx: isize = if x1 >= x0 {
            x1 - x0
        } else {
            x0 - x1
        };
        let dy: isize = if y1 >= y0 {
            y0 - y1
        } else {
            y1 - y0
        };
        let sx: isize = if x0 < x1 {
            1
        } else {
            -1
        };
        let sy: isize = if y0 < y1 {
            1
        } else {
            -1
        };
        let mut err: isize = dx + dy;
        let ghost orig = *self;
        let ghost xs: int = x0 as int;
        let ghost ys: int = y0 as int;
        let ghost x1g: int = x1 as int;
        let ghost y1g: int = y1 as int;
        let ghost dxg: int = dx as int;
        let ghost dyg: int = dy as int;
        let ghost dypg: int = -dyg;
        let ghost sxg: int = sx as int;
        let ghost syg: int = sy as int;
        let ghost mut av: int = 0;
        let ghost mut bv: int = 0;
        let ghost mut walked: Seq<(int, int)> = Seq::empty();
        let ghost mut fl: int = dxg + dypg;
        proof {
            assert(line_cells(start, end) =~= walked + line_walk(
                xs,
                ys,
                x1g,
                y1g,
                dxg,
                dyg,
                sxg,
                syg,
                dxg + dyg,
                (dxg + dypg) as nat,
            ));
            assert(0 * dyg == 0 && 0 * dxg == 0 && 0 * sxg == 0 && 0 * syg == 0) by (nonlinear_arith);
            assert(x1g == xs + dxg * sxg) by (nonlinear_arith)
                requires
                    (xs < x1g && sxg == 1 && dxg == x1g - xs) || (!(xs < x1g) && sxg == -1 && dxg
                        == xs - x1g),
            ;
            assert(y1g == ys + dypg * syg) by (nonlinear_arith)
                requires
                    (ys < y1g && syg == 1 && dypg == y1g - ys) || (!(ys < y1g) && syg == -1 && dypg
                        == ys - y1g),
            ;
        }
        loop
            invariant_except_break
                line_cells(start, end) == walked + line_walk(
                    x0 as int,
                    y0 as int,
                    x1g,
                    y1g,
                    dxg,
                    dyg,
                    sxg,
                    syg,
                    err as int,
                    fl as nat,
                ),
            invariant
                self.wf(),
                self.width == orig.width,
                self.height == orig.height,
                0 <= xs <= isize::MAX as int / 4,
                0 <= ys <= isize::MAX as int / 4,
                0 <= x1g <= isize::MAX as int / 4,
                0 <= y1g <= isize::MAX as int / 4,
                0 <= dxg <= isize::MAX as int / 4,
                0 <= dypg <= isize::MAX as int / 4,
                dyg == -dypg,
                sxg == 1 || sxg == -1,
                syg == 1 || syg == -1,
                sx as int == sxg,
                sy as int == syg,
                dx as int == dxg,
                dy as int == dyg,
                x1 as int == x1g,
                y1 as int == y1g,
                0 <= av <= dxg,
                0 <= bv <= dypg,
                x0 as int == xs + av * sxg,
                y0 as int == ys + bv * syg,
                x1g == xs + dxg * sxg,
                y1g == ys + dypg * syg,
                err as int == dxg + dyg + av * dyg + bv * dxg,
                2 * dyg <= err as int <= 2 * dxg,
                min(xs, x1g) <= x0 as int <= max(xs, x1g),
                min(ys, y1g) <= y0 as int <= max(ys, y1g),
                forall|i: int, j: int| self.in_bounds(i, j) ==> #[trigger] self.cell(i, j)
                    == orig.cell(i, j) || (self.cell(i, j) == ch && min(xs, x1g) <= i <= max(
                    xs,
                    x1g,
                ) && min(ys, y1g) <= j <= max(ys, y1g)),
                (av > 0 || bv > 0) && orig.in_bounds(xs, ys) ==> self.cell(xs, ys) == ch,
                y1g == ys ==> forall|i: int|
                    min(xs, x0 as int) <= i <= max(xs, x0 as int) && i != x0 as int
                        && orig.in_bounds(i, ys) ==> #[trigger] self.cell(i, ys) == ch,
                x1g == xs ==> forall|j: int|
                    min(ys, y0 as int) <= j <= max(ys, y0 as int) && j != y0 as int
                        && orig.in_bounds(xs, j) ==> #[trigger] self.cell(xs, j) == ch,
                fl >= (dxg - av) + (dypg - bv),
                forall|i: int, j: int| self.in_bounds(i, j) ==> #[trigger] self.cell(i, j) == (
                if walked.contains((i, j)) {
                    ch
                } else {
                    orig.cell(i, j)
                }),
            ensures
                self.wf(),
                self.width == orig.width,
                self.height == orig.height,
                forall|i: int, j: int| self.in_bounds(i, j) ==> #[trigger] self.cell(i, j)
                    == orig.cell(i, j) || (self.cell(i, j) == ch && min(xs, x1g) <= i <= max(
                    xs,
                    x1g,
                ) && min(ys, y1g) <= j <= max(ys, y1g)),
                orig.in_bounds(xs, ys) ==> self.cell(xs, ys) == ch,
                orig.in_bounds(x1g, y1g) ==> self.cell(x1g, y1g) == ch,
                y1g == ys ==> forall|i: int|
                    min(xs, x1g) <= i <= max(xs, x1g) && orig.in_bounds(i, ys)
                        ==> #[trigger] self.cell(i, ys) == ch,
                x1g == xs ==> forall|j: int|
                    min(ys, y1g) <= j <= max(ys, y1g) && orig.in_bounds(xs, j)
                        ==> #[trigger] self.cell(xs, j) == ch,
                forall|i: int, j: int| self.in_bounds(i, j) ==> #[trigger] self.cell(i, j) == (
                if line_cells(start, end).contains((i, j)) {
                    ch
                } else {
                    orig.cell(i, j)
                }),
            decreases (dxg - av) + (dypg - bv),
        {
            proof {
                if av == 0 {
                    assert(av * sxg == 0) by (nonlinear_arith)
                        requires
                            av == 0,
                    ;
                }
                if bv == 0 {
                    assert(bv * syg == 0) by (nonlinear_arith)
                        requires
                            bv == 0,
                    ;
                }
            }
            let ghost before = *self;
            let ghost x0t: int = x0 as int;
            let ghost y0t: int = y0 as int;
            let ghost errt: int = err as int;
            let ghost avt: int = av;
            let ghost bvt: int = bv;
            let ghost flt: int = fl;
            let ghost walked0 = walked;
            if x0 >= 0 && y0 >= 0 {
                self.set(Vector2 { x: x0 as usize, y: y0 as usize }, ch);
            }
            proof {
                walked = walked0.push((x0t, y0t));
                assert forall|i: int, j: int| self.in_bounds(i, j) implies #[trigger] self.cell(
                    i,
                    j,
                ) == (if walked.contains((i, j)) {
                    ch
                } else {
                    orig.cell(i, j)
                }) by {
                    lemma_push_contains(walked0, (x0t, y0t), (i, j));
                    if i == x0t && j == y0t {
                        assert(before.in_bounds(x0t, y0t));
                        assert(self.cell(i, j) == ch);
                    } else {
                        assert(self.cell(i, j) == before.cell(i, j));
                    }
                }
                assert forall|i: int, j: int| self.in_bounds(i, j) implies #[trigger] self.cell(
                    i,
                    j,
                ) == before.cell(i, j) || (i == x0t && j == y0t && self.cell(i, j) == ch) by {
                    if before.in_bounds(x0t, y0t) {
                        assert(self.cell(i, j) == (if i == x0t && j == y0t {
                            ch
                        } else {
                            before.cell(i, j)
                        }));
                    } else {
                        assert(*self == before);
                    }
                }
                assert(before.in_bounds(x0t, y0t) ==> self.cell(x0t, y0t) == ch);
                assert(orig.in_bounds(xs, ys) ==> self.cell(xs, ys) == ch);
            }
            if x0 == x1 && y0 == y1 {
                proof {
                    assert(line_walk(x0t, y0t, x1g, y1g, dxg, dyg, sxg, syg, errt, flt as nat)
                        =~= seq![(x0t, y0t)]);
                    assert(line_cells(start, end) =~= walked);
                    if y1g == ys {
                        assert forall|i: int|
                            min(xs, x1g) <= i <= max(xs, x1g) && orig.in_bounds(i, ys)
                                implies #[trigger] self.cell(i, ys) == ch by {
                            if i != x0t {
                                assert(before.cell(i, ys) == ch);
                            }
                        }
                    }
                    if x1g == xs {
                        assert forall|j: int|
                            min(ys, y1g) <= j <= max(ys, y1g) && orig.in_bounds(xs, j)
                                implies #[trigger] self.cell(xs, j) == ch by {
                            if j != y0t {
                                assert(before.cell(xs, j) == ch);
                            }
                        }
                    }
                }
                break ;
            }
            proof {
                assert(av != dxg || bv != dypg) by (nonlinear_arith)
                    requires
                        x0 as int != x1g || y0 as int != y1g,
                        x0 as int == xs + av * sxg,
                        y0 as int == ys + bv * syg,
                        x1g == xs + dxg * sxg,
                        y1g == ys + dypg * syg,
                ;
                if av == dxg {
                    assert(2 * (err as int) < dyg) by (nonlinear_arith)
                        requires
                            err as int == dxg + dyg + av * dyg + bv * dxg,
                            av == dxg,
                            0 <= bv < dypg,
                            dyg == -dypg,
                            0 <= dxg,
                    ;
                }
                if bv == dypg {
                    assert(2 * (err as int) > dxg) by (nonlinear_arith)
                        requires
                            err as int == dxg + dyg + av * dyg + bv * dxg,
                            bv == dypg,
                            0 <= av < dxg,
                            dyg == -dypg,
                            0 <= dypg,
                    ;
                }
            }
            let e2: isize = 2 * err;
            if e2 >= dy {
                err = err + dy;
                x0 = x0 + sx;
                proof {
                    assert((av + 1) * dyg == av * dyg + dyg) by (nonlinear_arith);
                    assert((av + 1) * sxg == av * sxg + sxg) by (nonlinear_arith);
                    av = av + 1;
                    assert(min(xs, x1g) <= x0 as int <= max(xs, x1g)) by (nonlinear_arith)
                        requires
                            x0 as int == xs + av * sxg,
                            x1g == xs + dxg * sxg,
                            0 <= av <= dxg,
                            sxg == 1 || sxg == -1,
                            min(xs, x1g) == (if xs <= x1g {
                                xs
                            } else {
                                x1g
                            }),
                            max(xs, x1g) == (if xs <= x1g {
                                x1g
                            } else {
                                xs
                            }),
                    ;
                }
            }
            if e2 <= dx {
                err = err + dx;
                y0 = y0 + sy;
                proof {
                    assert((bv + 1) * dxg == bv * dxg + dxg) by (nonlinear_arith);
                    assert((bv + 1) * syg == bv * syg + syg) by (nonlinear_arith);
                    bv = bv + 1;
                    assert(min(ys, y1g) <= y0 as int <= max(ys, y1g)) by (nonlinear_arith)
                        requires
                            y0 as int == ys + bv * syg,
                            y1g == ys + dypg * syg,
                            0 <= bv <= dypg,
                            syg == 1 || syg == -1,
                            min(ys, y1g) == (if ys <= y1g {
                                ys
                            } else {
                                y1g
                            }),
                            max(ys, y1g) == (if ys <= y1g {
                                y1g
                            } else {
                                ys
                            }),
                    ;
                }
            }
            proof {
                let e2g: int = 2 * errt;
                let nx: int = if e2g >= dyg {
                    x0t + sxg
                } else {
                    x0t
                };
                let ne1: int = if e2g >= dyg {
                    errt + dyg
                } else {
                    errt
                };
                let ny: int = if e2g <= dxg {
                    y0t + syg
                } else {
                    y0t
                };
                let ne: int = if e2g <= dxg {
                    ne1 + dxg
                } else {
                    ne1
                };
                assert(nx == x0 as int && ny == y0 as int && ne == err as int);
                assert(flt >= (dxg - avt) + (dypg - bvt));
                assert(avt != dxg || bvt != dypg);
                assert(flt >= 1);
                fl = flt - 1;
                assert(line_walk(x0t, y0t, x1g, y1g, dxg, dyg, sxg, syg, errt, flt as nat)
                    =~= seq![(x0t, y0t)] + line_walk(
                    nx,
                    ny,
                    x1g,
                    y1g,
                    dxg,
                    dyg,
                    sxg,
                    syg,
                    ne,
                    fl as nat,
                ));
                assert(line_cells(start, end) =~= walked + line_walk(
                    x0 as int,
                    y0 as int,
                    x1g,
                    y1g,
                    dxg,
                    dyg,
                    sxg,
                    syg,
                    err as int,
                    fl as nat,
                ));
                if y1g == ys {
                    assert forall|i: int|
                        min(xs, x0 as int) <= i <= max(xs, x0 as int) && i != x0 as int
                            && orig.in_bounds(i, ys) implies #[trigger] self.cell(i, ys) == ch by {
                        if i != x0t {
                            assert(min(xs, x0t) <= i <= max(xs, x0t));
                            assert(before.cell(i, ys) == ch);
                        }
                    }
                }
                if x1g == xs {
                    assert forall|j: int|
                        min(ys, y0 as int) <= j <= max(ys, y0 as int) && j != y0 as int
                            && orig.in_bounds(xs, j) implies #[trigger] self.cell(xs, j) == ch by {
                        if j != y0t {
                            assert(min(ys, y0t) <= j <= max(ys, y0t));
                            assert(before.cell(xs, j) == ch);
                        }
                    }
                }
            }
        }
    }

    /// Serializes the buffer for the output sink: for each row top to
    /// bottom, every cell left to right, each row terminated by a newline.
    pub fn render_text(&self) -> (r: Vec<char>)
        requires
            self.wf(),
        ensures
            r@ == rows_text(*self, self.height as int),
    {
        let mut out: Vec<char> = Vec::new();
        let mut y: usize = 0;
        while y < self.height
            invariant
                self.wf(),
                y <= self.height,
                out@ == rows_text(*self, y as int),
            decreases self.height - y,
        {
            proof {
                lemma_row_major_row_bound(y as int, self.width as int, self.height as int);
            }
            let mut x: usize = 0;
            while x < self.width
                invariant
                    self.wf(),
                    y < self.height,
                    x <= self.width,
                    y * self.width + self.width <= self.data@.len(),
                    0 <= y * self.width,
                    out@ == rows_text(*self, y as int) + self.data@.subrange(
                        y * self.width,
                        y * self.width + x,
                    ),
                decreases self.width - x,
            {
                let c: char = match self.get(Vector2 { x, y }) {
                    Some(v) => v,
                    None => ' ',
                };
                out.push(c);
                proof {
                    assert(out@ =~= rows_text(*self, y as int) + self.data@.subrange(
                        y * self.width,
                        y * self.width + x + 1,
                    ));
                }
                x = x + 1;
            }
            out.push('\n');
            proof {
                assert(out@ =~= rows_text(*self, y as int) + row_text(*self, y as int));
            }
            y = y + 1;
        }
        out
    }
}

/// Relies on terminal_size::terminal_size: reports the terminal's current
/// width and height in cells, or nothing when no terminal is available. The
/// result depends on the environment, so nothing beyond its shape is
/// promised.
#[verifier::external_body]
fn query_terminal_size() -> (r: Option<(u16, u16)>) {
    match terminal_size::terminal_size() {
        Some((terminal_size::Width(w), terminal_size::Height(h))) => Some((w, h)),
        None => None,
    }
}

/// One serialized row of `fb`: its cells left to right, then a newline.
pub open spec fn row_text(fb: Framebuffer, y: int) -> Seq<char> {
    fb.data@.subrange(y * fb.width, y * fb.width + fb.width).push('\n')
}

/// The serialized form of the first `y` rows of `fb`, top to bottom.
pub open spec fn rows_text(fb: Framebuffer, y: int) -> Seq<char>
    decreases y,
{
    if y <= 0 {
        Seq::empty()
    } else {
        rows_text(fb, y - 1) + row_text(fb, y - 1)
    }
}

/// In a `width`-wide row-major grid of `height` rows, row `y` occupies
/// indices `y * width` up to `y * width + width`, within `width * height`.
pub proof fn lemma_row_major_row_bound(y: int, width: int, height: int)
    requires
        0 <= y < height,
        0 <= width,
    ensures
        0 <= y * width,
        y * width + width <= width * height,
{
    assert(0 <= y * width && y * width + width <= width * height) by (nonlinear_arith)
        requires
            0 <= y < height,
            0 <= width,
    ;
}

/// In a `width`-wide row-major grid, an in-bounds coordinate pair maps below
/// `width * height`.
pub proof fn lemma_row_major_index_bound(x: int, y: int, width: int, height: int)
    requires
        0 <= x < width,
        0 <= y < height,
    ensures
        0 <= y * width + x < width * height,
{
    assert(0 <= y * width + x < width * height) by (nonlinear_arith)
        requires
            0 <= x < width,
            0 <= y < height,
    ;
}

/// Row-major indexing is injective on in-bounds coordinates.
pub proof fn lemma_row_major_index_injective(x1: int, y1: int, x2: int, y2: int, width: int)
    requires
        0 <= x1 < width,
        0 <= x2 < width,
        y1 * width + x1 == y2 * width + x2,
    ensures
        x1 == x2,
        y1 == y2,
{
    assert(x1 == x2 && y1 == y2) by (nonlinear_arith)
        requires
            0 <= x1 < width,
            0 <= x2 < width,
            y1 * width + x1 == y2 * width + x2,
    ;
}

} // verus!

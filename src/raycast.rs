use vstd::prelude::*;
use vstd::arithmetic::div_mod::{lemma_fundamental_div_mod, lemma_fundamental_div_mod_converse};
use crate::grid::{CastError, Grid};

verus! {

/// What a cast found. On a hit, `cell_x`, `cell_y` is the occupied cell and
/// the ray enters it at parameter `num / den` along the direction vector:
/// the entry point is `origin + direction * num / den`, and its Euclidean
/// distance from the origin is `num / den * |direction|`. On a miss all
/// other fields are zero.
#[derive(Debug, Clone, Copy, PartialEq, Eq, Structural)]
pub struct RayHit {
    pub hit: bool,
    pub cell_x: i64,
    pub cell_y: i64,
    pub num: i64,
    pub den: i64,
}

impl RayHit {
    /// The hit as (cell x, cell y, num, den), or `None` for a miss.
    pub open spec fn model(self) -> Option<(int, int, int, int)> {
        if self.hit {
            Some((self.cell_x as int, self.cell_y as int, self.num as int, self.den as int))
        } else {
            None
        }
    }

    pub open spec fn is_canonical(self) -> bool {
        !self.hit ==> self.cell_x == 0 && self.cell_y == 0 && self.num == 0 && self.den == 0
    }
}

pub open spec fn step_of(d: int) -> int {
    if d < 0 { -1 } else { 1 }
}

pub open spec fn abs_of(d: int) -> int {
    if d < 0 { -d } else { d }
}

/// The cell that holds world coordinate `o` (floor division).
pub open spec fn cell_of(o: int, s: int) -> int {
    o / s
}

/// `|d|` times the ray parameter at which a ray from `o` with component `d`
/// leaves cell `c` (cells of size `s`) on this axis.
pub open spec fn exit_num(o: int, d: int, c: int, s: int) -> int {
    if d < 0 { o - c * s } else { (c + 1) * s - o }
}

/// Parameter `num / den` along direction (dx, dy) lies at Euclidean
/// distance at least `m` from the origin.
pub open spec fn reaches(num: int, den: int, dx: int, dy: int, m: int) -> bool {
    num * num * (dx * dx + dy * dy) >= m * m * (den * den)
}

/// Cells left before the traversal leaves `[0, n)` on one axis.
pub open spec fn room(c: int, d: int, n: int) -> int {
    if d < 0 { c + 1 } else { n - c }
}

impl Grid {
    /// The traversal from cell (cx, cy): step to the neighbouring cell whose
    /// boundary the ray reaches first (x on a tie), then stop with a miss at
    /// distance `m` or beyond or outside the grid, with a hit on an
    /// occupied cell, and go on otherwise.
    pub open spec fn walk(&self, ox: int, oy: int, dx: int, dy: int, m: int, cx: int, cy: int)
        -> Option<(int, int, int, int)>
        decreases room(cx, dx, self.spec_width()) + room(cy, dy, self.spec_height()),
    {
        let s = self.spec_cell_size();
        let nx = exit_num(ox, dx, cx, s);
        let ny = exit_num(oy, dy, cy, s);
        let x_first = nx * abs_of(dy) <= ny * abs_of(dx);
        let ncx = if x_first { cx + step_of(dx) } else { cx };
        let ncy = if x_first { cy } else { cy + step_of(dy) };
        let num = if x_first { nx } else { ny };
        let den = if x_first { abs_of(dx) } else { abs_of(dy) };
        if reaches(num, den, dx, dy, m) {
            None
        } else if !self.in_bounds(ncx, ncy) {
            None
        } else if self.occupied(ncx, ncy) {
            Some((ncx, ncy, num, den))
        } else {
            self.walk(ox, oy, dx, dy, m, ncx, ncy)
        }
    }

    /// The first occupied cell that a ray from (ox, oy) along (dx, dy)
    /// enters within distance `m`, with its entry parameter.
    pub open spec fn cast_spec(&self, ox: int, oy: int, dx: int, dy: int, m: int) -> Option<
        (int, int, int, int),
    > {
        let s = self.spec_cell_size();
        self.walk(ox, oy, dx, dy, m, cell_of(ox, s), cell_of(oy, s))
    }
}

fn floor_div(o: i64, s: i64) -> (q: i64)
    requires
        s > 0,
        -0x8000_0000 <= o < 0x8000_0000,
    ensures
        q == o / s,
        q * s <= o < q * s + s,
        -0x8000_0000 <= q < 0x8000_0000,
{
    if o >= 0 {
        let q = ((o as u64) / (s as u64)) as i64;
        proof {
            lemma_fundamental_div_mod(o as int, s as int);
            let r = (o as int) % (s as int);
            assert(q * s <= o < q * s + s) by (nonlinear_arith)
                requires o == s * q + r, 0 <= r < s;
            assert(q <= o) by (nonlinear_arith)
                requires q * s <= o, s > 0, o >= 0;
        }
        q
    } else {
        let p = ((-o - 1) as u64) / (s as u64);
        let ghost x = -o - 1;
        let ghost r = x % (s as int);
        proof {
            lemma_fundamental_div_mod(x, s as int);
            assert(p == x / (s as int));
            assert(x == s * p + r);
            assert(o == (-p - 1) * s + (s - r - 1)) by (nonlinear_arith)
                requires x == s * p + r, x == -o - 1;
            assert(p <= x) by (nonlinear_arith)
                requires x == s * p + r, s > 0, 0 <= r, x >= 0, p >= 0;
            lemma_fundamental_div_mod_converse(o as int, s as int, -p - 1, s - r - 1);
        }
        -(p as i64) - 1
    }
}

fn abs_i16(d: i16) -> (r: i64)
    ensures
        r == abs_of(d as int),
{
    if d < 0 { -(d as i64) } else { d as i64 }
}

fn no_hit() -> (r: RayHit)
    ensures
        !r.hit,
        r.is_canonical(),
{
    RayHit { hit: false, cell_x: 0, cell_y: 0, num: 0, den: 0 }
}

/// Casts a ray from world point (ox, oy) along (dx, dy) over `grid` and
/// reports the first occupied cell that it enters less than `max_distance`
/// from the origin. `InvalidArgument` for a zero direction or a zero range.
pub fn cast(grid: &Grid, ox: i32, oy: i32, dx: i16, dy: i16, max_distance: u32) -> (r: Result<
    RayHit,
    CastError,
>)
    requires
        grid.wf(),
    ensures
        r is Err <==> (dx == 0 && dy == 0) || max_distance == 0,
        r matches Ok(h) ==> h.is_canonical() && h.model() == grid.cast_spec(
            ox as int,
            oy as int,
            dx as int,
            dy as int,
            max_distance as int,
        ),
{
    if (dx == 0 && dy == 0) || max_distance == 0 {
        return Err(CastError::InvalidArgument);
    }
    proof {
        grid.lemma_wf_dims();
    }
    let s: i64 = grid.cell_size() as i64;
    let w: i64 = grid.width() as i64;
    let h: i64 = grid.height() as i64;
    let cx0 = floor_div(ox as i64, s);
    let cy0 = floor_div(oy as i64, s);
    let adx = abs_i16(dx);
    let ady = abs_i16(dy);
    proof {
        assert(0 <= dx * dx <= 0x8000 * 0x8000 && 0 <= dy * dy <= 0x8000 * 0x8000) by (nonlinear_arith)
            requires -0x8000 <= dx <= 0x8000, -0x8000 <= dy <= 0x8000;
    }
    let d2: i128 = (dx as i128) * (dx as i128) + (dy as i128) * (dy as i128);
    let m: i128 = max_distance as i128;
    proof {
        assert(0 <= m * m <= 0x1_0000_0000 * 0x1_0000_0000) by (nonlinear_arith)
            requires 0 <= m < 0x1_0000_0000;
    }
    let m2: i128 = m * m;
    let mut cx = cx0;
    let mut cy = cy0;
    let ghost gx = ox as int;
    let ghost gy = oy as int;
    let ghost gm = max_distance as int;
    loop
        invariant
            grid.wf(),
            s == grid.spec_cell_size(),
            w == grid.spec_width(),
            h == grid.spec_height(),
            0 < s <= 0xffff,
            0 < w <= 0xffff,
            0 < h <= 0xffff,
            cx0 * s <= ox < cx0 * s + s,
            cy0 * s <= oy < cy0 * s + s,
            -0x8000_0000 <= cx0 < 0x8000_0000,
            -0x8000_0000 <= cy0 < 0x8000_0000,
            adx == abs_of(dx as int),
            ady == abs_of(dy as int),
            d2 == dx * dx + dy * dy,
            0 <= d2 <= 0x8000_0000,
            gx == ox,
            gy == oy,
            gm == max_distance,
            max_distance > 0,
            dx != 0 || dy != 0,
            m2 == gm * gm,
            (cx == cx0 && cy == cy0) || grid.in_bounds(cx as int, cy as int),
            grid.walk(gx, gy, dx as int, dy as int, gm, cx as int, cy as int) == grid.cast_spec(
                gx,
                gy,
                dx as int,
                dy as int,
                gm,
            ),
        decreases room(cx as int, dx as int, w as int) + room(cy as int, dy as int, h as int),
    {
        proof {
            if cx != cx0 {
                assert(0 <= cx * s <= 0xffff * 0xffff && cx * s + s <= 0x1_0000 * 0xffff) by (nonlinear_arith)
                    requires 0 <= cx < 0xffff, 0 < s <= 0xffff;
            } else {
                assert(-0x8000_0000 * 0xffff <= cx * s <= 0x8000_0000 * 0xffff) by (nonlinear_arith)
                    requires -0x8000_0000 <= cx < 0x8000_0000, 0 < s <= 0xffff;
            }
            if cy != cy0 {
                assert(0 <= cy * s <= 0xffff * 0xffff && cy * s + s <= 0x1_0000 * 0xffff) by (nonlinear_arith)
                    requires 0 <= cy < 0xffff, 0 < s <= 0xffff;
            } else {
                assert(-0x8000_0000 * 0xffff <= cy * s <= 0x8000_0000 * 0xffff) by (nonlinear_arith)
                    requires -0x8000_0000 <= cy < 0x8000_0000, 0 < s <= 0xffff;
            }
        }
        let nx: i64 = if dx < 0 { ox as i64 - cx * s } else { cx * s + s - ox as i64 };
        let ny: i64 = if dy < 0 { oy as i64 - cy * s } else { cy * s + s - oy as i64 };
        proof {
            assert(-0x3_0000_0000 <= nx <= 0x3_0000_0000);
            assert(-0x3_0000_0000 <= ny <= 0x3_0000_0000);
            assert(-0x3_0000_0000 * 0x8000 <= nx * ady <= 0x3_0000_0000 * 0x8000) by (nonlinear_arith)
                requires -0x3_0000_0000 <= nx <= 0x3_0000_0000, 0 <= ady <= 0x8000;
            assert(-0x3_0000_0000 * 0x8000 <= ny * adx <= 0x3_0000_0000 * 0x8000) by (nonlinear_arith)
                requires -0x3_0000_0000 <= ny <= 0x3_0000_0000, 0 <= adx <= 0x8000;
        }
        let x_first = (nx as i128) * (ady as i128) <= (ny as i128) * (adx as i128);
        let ncx: i64 = if x_first { cx + if dx < 0 { -1 } else { 1 } } else { cx };
        let ncy: i64 = if x_first { cy } else { cy + if dy < 0 { -1 } else { 1 } };
        let num: i64 = if x_first { nx } else { ny };
        let den: i64 = if x_first { adx } else { ady };
        proof {
            assert(0 <= num * num <= 0x3_0000_0000 * 0x3_0000_0000) by (nonlinear_arith)
                requires -0x3_0000_0000 <= num <= 0x3_0000_0000;
            assert(0 <= num * num * d2 <= 0x3_0000_0000 * 0x3_0000_0000 * 0x8000_0000)
                by (nonlinear_arith)
                requires 0 <= num * num <= 0x3_0000_0000 * 0x3_0000_0000, 0 <= d2 <= 0x8000_0000;
            assert(0 <= m2 <= 0x1_0000_0000 * 0x1_0000_0000) by (nonlinear_arith)
                requires m2 == gm * gm, 0 <= gm < 0x1_0000_0000;
            assert(0 <= den * den <= 0x8000 * 0x8000) by (nonlinear_arith)
                requires 0 <= den <= 0x8000;
            assert(0 <= m2 * (den * den) <= 0x1_0000_0000 * 0x1_0000_0000 * 0x8000 * 0x8000)
                by (nonlinear_arith)
                requires 0 <= m2 <= 0x1_0000_0000 * 0x1_0000_0000, 0 <= den * den <= 0x8000 * 0x8000;
        }
        proof {
            assert((cx + 1) * s == cx * s + s) by (nonlinear_arith);
            assert((cy + 1) * s == cy * s + s) by (nonlinear_arith);
            assert(nx == exit_num(gx, dx as int, cx as int, s as int));
            assert(ny == exit_num(gy, dy as int, cy as int, s as int));
        }
        let num_w = num as i128;
        let den_w = den as i128;
        if num_w * num_w * d2 >= m2 * (den_w * den_w) {
            return Ok(no_hit());
        }
        if ncx < 0 || ncy < 0 || ncx >= w || ncy >= h {
            return Ok(no_hit());
        }
        if grid.is_occupied(ncx, ncy) {
            return Ok(RayHit { hit: true, cell_x: ncx, cell_y: ncy, num, den });
        }
        cx = ncx;
        cy = ncy;
    }
}

} // verus!

use vstd::prelude::*;
use crate::grid::Grid;
use vstd::arithmetic::div_mod::{lemma_fundamental_div_mod, lemma_fundamental_div_mod_converse};
use crate::raycast::{RayHit, abs_of, exit_num, room, step_of};

verus! {

/// On a grid with no occupied cell, no traversal ever hits.
pub proof fn lemma_free_walk_misses(g: &Grid, ox: int, oy: int, dx: int, dy: int, m: int, cx: int, cy: int)
    requires
        forall|x: int, y: int| !g.occupied(x, y),
    ensures
        g.walk(ox, oy, dx, dy, m, cx, cy) is None,
    decreases room(cx, dx, g.spec_width()) + room(cy, dy, g.spec_height()),
{
    let s = g.spec_cell_size();
    let nx = exit_num(ox, dx, cx, s);
    let ny = exit_num(oy, dy, cy, s);
    let x_first = nx * abs_of(dy) <= ny * abs_of(dx);
    let ncx = if x_first { cx + step_of(dx) } else { cx };
    let ncy = if x_first { cy } else { cy + step_of(dy) };
    if g.in_bounds(ncx, ncy) {
        lemma_free_walk_misses(g, ox, oy, dx, dy, m, ncx, ncy);
    }
}

/// A ray cast over a grid with no occupied cell misses, whatever its
/// origin, direction and range.
pub proof fn lemma_free_grid_misses(g: &Grid, ox: int, oy: int, dx: int, dy: int, m: int)
    requires
        forall|x: int, y: int| !g.occupied(x, y),
    ensures
        g.cast_spec(ox, oy, dx, dy, m) is None,
{
    let s = g.spec_cell_size();
    lemma_free_walk_misses(g, ox, oy, dx, dy, m, ox / s, oy / s);
}

/// Casting twice with the same arguments over the same grid gives the same
/// result: a result is fixed by the grid and the arguments alone.
pub proof fn lemma_cast_deterministic(
    g: &Grid,
    ox: int,
    oy: int,
    dx: int,
    dy: int,
    m: int,
    first: RayHit,
    second: RayHit,
)
    requires
        first.is_canonical(),
        second.is_canonical(),
        first.model() == g.cast_spec(ox, oy, dx, dy, m),
        second.model() == g.cast_spec(ox, oy, dx, dy, m),
    ensures
        first == second,
{
}

/// `h` reflected across the vertical axis of a grid `w` cells wide.
pub open spec fn mirror_hit(h: Option<(int, int, int, int)>, w: int) -> Option<(int, int, int, int)> {
    match h {
        Some((x, y, num, den)) => Some((w - 1 - x, y, num, den)),
        None => None,
    }
}

/// `mirror` is `g` reflected left to right.
pub open spec fn is_mirror(g: &Grid, mirror: &Grid) -> bool {
    &&& mirror.spec_width() == g.spec_width()
    &&& mirror.spec_height() == g.spec_height()
    &&& mirror.spec_cell_size() == g.spec_cell_size()
    &&& forall|x: int, y: int|
        #![trigger mirror.occupied(x, y)]
        mirror.occupied(x, y) == g.occupied(g.spec_width() - 1 - x, y)
}

/// `h` with its denominator scaled by `k`.
pub open spec fn scale_den(h: Option<(int, int, int, int)>, k: int) -> Option<(int, int, int, int)> {
    match h {
        Some((x, y, num, den)) => Some((x, y, num, den * k)),
        None => None,
    }
}

proof fn lemma_mirror_walk(
    g: &Grid,
    mirror: &Grid,
    ox: int,
    oy: int,
    dx: int,
    dy: int,
    m: int,
    cx: int,
    cy: int,
)
    requires
        is_mirror(g, mirror),
        dx != 0,
    ensures
        g.walk(ox, oy, dx, dy, m, cx, cy) == mirror_hit(
            mirror.walk(
                g.spec_width() * g.spec_cell_size() - ox,
                oy,
                -dx,
                dy,
                m,
                g.spec_width() - 1 - cx,
                cy,
            ),
            g.spec_width(),
        ),
    decreases room(cx, dx, g.spec_width()) + room(cy, dy, g.spec_height()),
{
    let s = g.spec_cell_size();
    let w = g.spec_width();
    let mx = w * s - ox;
    let mcx = w - 1 - cx;
    assert(mx - mcx * s == (cx + 1) * s - ox) by (nonlinear_arith)
        requires mx == w * s - ox, mcx == w - 1 - cx;
    assert((mcx + 1) * s - mx == ox - cx * s) by (nonlinear_arith)
        requires mx == w * s - ox, mcx == w - 1 - cx;
    assert(exit_num(mx, -dx, mcx, s) == exit_num(ox, dx, cx, s));
    assert((-dx) * (-dx) == dx * dx) by (nonlinear_arith);
    let nx = exit_num(ox, dx, cx, s);
    let ny = exit_num(oy, dy, cy, s);
    let x_first = nx * abs_of(dy) <= ny * abs_of(dx);
    let ncx = if x_first { cx + step_of(dx) } else { cx };
    let ncy = if x_first { cy } else { cy + step_of(dy) };
    assert(mirror.occupied(w - 1 - ncx, ncy) == g.occupied(w - 1 - (w - 1 - ncx), ncy));
    if g.in_bounds(ncx, ncy) {
        lemma_mirror_walk(g, mirror, ox, oy, dx, dy, m, ncx, ncy);
    }
}

/// Mirror symmetry: over a grid reflected left to right, a ray from the
/// reflected origin with the horizontal component of its direction negated
/// hits the reflected cell at the same parameter, or misses as the original
/// ray does. Origins on a vertical cell boundary are left out: there one of
/// the two rays tests its neighbouring cell at distance zero and the other
/// does not.
pub proof fn lemma_cast_mirror(
    g: &Grid,
    mirror: &Grid,
    ox: int,
    oy: int,
    dx: int,
    dy: int,
    m: int,
)
    requires
        g.wf(),
        is_mirror(g, mirror),
        dx != 0,
        ox % g.spec_cell_size() != 0,
    ensures
        g.cast_spec(ox, oy, dx, dy, m) == mirror_hit(
            mirror.cast_spec(g.spec_width() * g.spec_cell_size() - ox, oy, -dx, dy, m),
            g.spec_width(),
        ),
{
    g.lemma_wf_dims();
    let s = g.spec_cell_size();
    let w = g.spec_width();
    lemma_fundamental_div_mod(ox, s);
    let q = ox / s;
    let r = ox % s;
    assert(w * s - ox == (w - q - 1) * s + (s - r)) by (nonlinear_arith)
        requires ox == s * q + r;
    lemma_fundamental_div_mod_converse(w * s - ox, s, w - q - 1, s - r);
    lemma_mirror_walk(g, mirror, ox, oy, dx, dy, m, q, oy / s);
}

proof fn lemma_scale_walk(g: &Grid, ox: int, oy: int, dx: int, dy: int, m: int, k: int, cx: int, cy: int)
    requires
        k > 0,
    ensures
        g.walk(ox, oy, k * dx, k * dy, m, cx, cy) == scale_den(
            g.walk(ox, oy, dx, dy, m, cx, cy),
            k,
        ),
    decreases room(cx, dx, g.spec_width()) + room(cy, dy, g.spec_height()),
{
    let s = g.spec_cell_size();
    assert((k * dx < 0) == (dx < 0) && (k * dy < 0) == (dy < 0)) by (nonlinear_arith)
        requires k > 0;
    assert(abs_of(k * dx) == k * abs_of(dx) && abs_of(k * dy) == k * abs_of(dy)) by (nonlinear_arith)
        requires k > 0;
    let nx = exit_num(ox, dx, cx, s);
    let ny = exit_num(oy, dy, cy, s);
    let ax = abs_of(dx);
    let ay = abs_of(dy);
    assert((nx * (k * ay) <= ny * (k * ax)) == (nx * ay <= ny * ax)) by (nonlinear_arith)
        requires k > 0;
    let x_first = nx * ay <= ny * ax;
    let num = if x_first { nx } else { ny };
    let den = if x_first { ax } else { ay };
    let a = num * num * (dx * dx + dy * dy);
    let b = m * m * (den * den);
    assert(num * num * ((k * dx) * (k * dx) + (k * dy) * (k * dy)) == (k * k) * a)
        by (nonlinear_arith) requires a == num * num * (dx * dx + dy * dy);
    assert(m * m * ((k * den) * (k * den)) == (k * k) * b) by (nonlinear_arith)
        requires b == m * m * (den * den);
    assert(k * k > 0) by (nonlinear_arith) requires k > 0;
    assert(((k * k) * a >= (k * k) * b) == (a >= b)) by (nonlinear_arith)
        requires k * k > 0;
    assert(den * k == k * den);
    let ncx = if x_first { cx + step_of(dx) } else { cx };
    let ncy = if x_first { cy } else { cy + step_of(dy) };
    if g.in_bounds(ncx, ncy) {
        lemma_scale_walk(g, ox, oy, dx, dy, m, k, ncx, ncy);
    }
}

/// Only the direction of a ray matters, not its length: scaling the
/// direction by `k > 0` hits the same cell at the same point, the entry
/// parameter `num / den` shrinking by `k` (its denominator grows by `k`).
/// An axis-aligned direction such as (1, 0) therefore agrees with every
/// longer one along the same axis.
pub proof fn lemma_cast_scale(g: &Grid, ox: int, oy: int, dx: int, dy: int, m: int, k: int)
    requires
        k > 0,
    ensures
        g.cast_spec(ox, oy, k * dx, k * dy, m) == scale_den(g.cast_spec(ox, oy, dx, dy, m), k),
{
    let s = g.spec_cell_size();
    lemma_scale_walk(g, ox, oy, dx, dy, m, k, ox / s, oy / s);
}

} // verus!

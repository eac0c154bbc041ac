use vstd::prelude::*;
use vstd::arithmetic::div_mod::{
    lemma_fundamental_div_mod, lemma_fundamental_div_mod_converse, lemma_mod_multiples_vanish,
};
use crate::grid::{CastError, Grid};
use crate::raycast::{RayHit, cast};

verus! {

/// Angle units in one full turn.
pub const FULL_TURN: u32 = 65536;

/// The angle of ray `i` of `n` spread evenly over `fov` units centred on
/// `facing`, normalised into `[0, FULL_TURN)`; a single ray points at
/// `facing`.
pub open spec fn sweep_angle(facing: int, fov: int, n: int, i: int) -> int {
    (facing - fov / 2 + sweep_offset(fov, n, i)) % (FULL_TURN as int)
}

/// How far ray `i` of `n` lies from the left edge of the field of view.
pub open spec fn sweep_offset(fov: int, n: int, i: int) -> int {
    if n > 1 { (i * fov) / (n - 1) } else { fov / 2 }
}

/// The rays of a sweep of `n > 1` rays run from the left edge of the field
/// of view to its right edge, and consecutive rays lie `fov / (n - 1)` or
/// one unit more apart: evenly spaced, and increasing before they are
/// normalised into one turn.
pub proof fn lemma_sweep_even(fov: int, n: int, i: int)
    requires
        fov >= 0,
        n > 1,
        0 <= i < n - 1,
    ensures
        sweep_offset(fov, n, 0) == 0,
        sweep_offset(fov, n, n - 1) == fov,
        fov / (n - 1) <= sweep_offset(fov, n, i + 1) - sweep_offset(fov, n, i) <= fov / (n - 1) + 1,
{
    let k = n - 1;
    let a = i * fov;
    assert((i + 1) * fov == a + fov) by (nonlinear_arith) requires a == i * fov;
    assert(0 <= a) by (nonlinear_arith) requires 0 <= i, 0 <= fov, a == i * fov;
    lemma_fundamental_div_mod(a, k);
    lemma_fundamental_div_mod(fov, k);
    let qa = a / k;
    let ra = a % k;
    let qf = fov / k;
    let rf = fov % k;
    if ra + rf < k {
        assert(a + fov == (qa + qf) * k + (ra + rf)) by (nonlinear_arith)
            requires a == k * qa + ra, fov == k * qf + rf;
        lemma_fundamental_div_mod_converse(a + fov, k, qa + qf, ra + rf);
    } else {
        assert(a + fov == (qa + qf + 1) * k + (ra + rf - k)) by (nonlinear_arith)
            requires a == k * qa + ra, fov == k * qf + rf;
        lemma_fundamental_div_mod_converse(a + fov, k, qa + qf + 1, ra + rf - k);
    }
    assert((n - 1) * fov == fov * k) by (nonlinear_arith) requires k == n - 1;
    lemma_fundamental_div_mod_converse(fov * k, k, fov, 0);
    lemma_fundamental_div_mod_converse(0, k, 0, 0);
}

/// The `ray_count` angles of a field of view of `fov` units centred on
/// `facing`, left to right: from `facing - fov / 2` to `facing + fov / 2`
/// inclusive, each normalised into `[0, FULL_TURN)`. `InvalidArgument` when
/// `ray_count` is zero.
pub fn sweep_angles(facing: u32, fov: u32, ray_count: u32) -> (r: Result<Vec<u32>, CastError>)
    ensures
        r is Err <==> ray_count == 0,
        r matches Ok(v) ==> {
            &&& v@.len() == ray_count
            &&& forall|i: int|
                0 <= i < ray_count ==> v@[i] == sweep_angle(
                    facing as int,
                    fov as int,
                    ray_count as int,
                    i,
                )
        },
{
    if ray_count == 0 {
        return Err(CastError::InvalidArgument);
    }
    let half: u64 = (fov / 2) as u64;
    let base: u64 = facing as u64 + (FULL_TURN as u64) * 0x8000 - half;
    let mut v: Vec<u32> = Vec::new();
    let mut i: u32 = 0;
    while i < ray_count
        invariant
            i <= ray_count,
            half == fov / 2,
            base == facing + FULL_TURN * 0x8000 - half,
            v@.len() == i,
            forall|k: int|
                0 <= k < i ==> v@[k] == sweep_angle(facing as int, fov as int, ray_count as int, k),
        decreases ray_count - i,
    {
        let offset: u64 = if ray_count > 1 {
            proof {
                assert(0 <= i * fov <= 0xffff_ffff * 0xffff_ffff) by (nonlinear_arith)
                    requires 0 <= i <= 0xffff_ffff, 0 <= fov <= 0xffff_ffff;
                assert((i * fov) / (ray_count - 1) <= fov) by (nonlinear_arith)
                    requires 0 <= i <= ray_count - 1, 0 <= fov, ray_count > 1;
            }
            (i as u64) * (fov as u64) / ((ray_count - 1) as u64)
        } else {
            half
        };
        let a: u64 = (base + offset) % (FULL_TURN as u64);
        proof {
            let x = facing - fov / 2 + offset;
            lemma_mod_multiples_vanish(0x8000, x, FULL_TURN as int);
            assert(base + offset == FULL_TURN * 0x8000 + x);
        }
        v.push(a as u32);
        i += 1;
    }
    Ok(v)
}

/// Casts one ray per direction from world point (ox, oy), in order.
/// `InvalidArgument` when there are no directions, when one of them is
/// zero, or when the range is zero; no partial result is returned.
pub fn sweep(grid: &Grid, ox: i32, oy: i32, directions: &Vec<(i16, i16)>, max_distance: u32) -> (r:
    Result<Vec<RayHit>, CastError>)
    requires
        grid.wf(),
    ensures
        r is Err <==> directions@.len() == 0 || max_distance == 0 || exists|i: int|
            0 <= i < directions@.len() && directions@[i].0 == 0 && directions@[i].1 == 0,
        r matches Ok(v) ==> {
            &&& v@.len() == directions@.len()
            &&& forall|i: int|
                0 <= i < v@.len() ==> {
                    &&& v@[i].is_canonical()
                    &&& v@[i].model() == grid.cast_spec(
                        ox as int,
                        oy as int,
                        directions@[i].0 as int,
                        directions@[i].1 as int,
                        max_distance as int,
                    )
                }
        },
{
    if directions.len() == 0 {
        return Err(CastError::InvalidArgument);
    }
    let mut out: Vec<RayHit> = Vec::new();
    let mut i: usize = 0;
    while i < directions.len()
        invariant
            grid.wf(),
            i <= directions@.len(),
            out@.len() == i,
            forall|k: int|
                0 <= k < i ==> directions@[k].0 != 0 || directions@[k].1 != 0,
            max_distance > 0 || i == 0,
            forall|k: int|
                0 <= k < i ==> {
                    &&& out@[k].is_canonical()
                    &&& out@[k].model() == grid.cast_spec(
                        ox as int,
                        oy as int,
                        directions@[k].0 as int,
                        directions@[k].1 as int,
                        max_distance as int,
                    )
                },
        decreases directions@.len() - i,
    {
        let (dx, dy) = directions[i];
        match cast(grid, ox, oy, dx, dy, max_distance) {
            Ok(h) => out.push(h),
            Err(e) => {
                return Err(e);
            },
        }
        i += 1;
    }
    Ok(out)
}

} // verus!

use raycaster::grid::{CastError, Grid};
use raycaster::raycast::{cast, RayHit};
use raycaster::sweep::{sweep, sweep_angles, FULL_TURN};

fn distance_in_cells(h: &RayHit, dx: i16, dy: i16, cell_size: u16) -> f64 {
    let len = ((dx as f64) * (dx as f64) + (dy as f64) * (dy as f64)).sqrt();
    (h.num as f64) / (h.den as f64) * len / (cell_size as f64)
}

fn room_8x8() -> Grid {
    let mut g = Grid::new(8, 8, 2).unwrap();
    for i in 0..8 {
        g.set_occupied(i, 0, true);
        g.set_occupied(i, 7, true);
        g.set_occupied(0, i, true);
        g.set_occupied(7, i, true);
    }
    g
}

#[test]
fn closed_room_from_cell_centre() {
    let g = room_8x8();
    // (4.5, 4.5) in cells, cell size 2.
    let h = cast(&g, 9, 9, 1, 0, 100).unwrap();
    assert!(h.hit);
    assert_eq!((h.cell_x, h.cell_y), (7, 4));
    assert_eq!((h.num, h.den), (5, 1));
    assert!((distance_in_cells(&h, 1, 0, 2) - 2.5).abs() < 1e-9);
}

#[test]
fn closed_room_from_grid_centre() {
    let g = room_8x8();
    // (4, 4) in cells.
    let h = cast(&g, 8, 8, 1, 0, 100).unwrap();
    assert!(h.hit);
    assert_eq!((h.cell_x, h.cell_y), (7, 4));
    assert!((distance_in_cells(&h, 1, 0, 2) - 3.0).abs() < 1e-9);
}

#[test]
fn single_cell_hit_straight() {
    let mut g = Grid::new(10, 10, 2).unwrap();
    g.set_occupied(6, 3, true);
    // From (2.5, 3.5) towards the centre (6.5, 3.5): entry at x = 6.
    let h = cast(&g, 5, 7, 1, 0, 100).unwrap();
    assert!(h.hit);
    assert_eq!((h.cell_x, h.cell_y), (6, 3));
    assert!((distance_in_cells(&h, 1, 0, 2) - 3.5).abs() < 1e-9);
}

#[test]
fn single_cell_hit_diagonal() {
    let mut g = Grid::new(10, 10, 2).unwrap();
    g.set_occupied(5, 5, true);
    // From (1.5, 1.5) towards the centre (5.5, 5.5): entry at corner (5, 5).
    let h = cast(&g, 3, 3, 1, 1, 100).unwrap();
    assert!(h.hit);
    assert_eq!((h.cell_x, h.cell_y), (5, 5));
    let expected = 3.5 * 2.0f64.sqrt();
    assert!((distance_in_cells(&h, 1, 1, 2) - expected).abs() < 1e-9);
}

#[test]
fn mirrored_occupancy_gives_equal_distances() {
    let mut g = Grid::new(8, 8, 2).unwrap();
    g.set_occupied(1, 4, true);
    g.set_occupied(6, 4, true);
    let right = cast(&g, 8, 9, 1, 0, 100).unwrap();
    let left = cast(&g, 8, 9, -1, 0, 100).unwrap();
    assert!(right.hit && left.hit);
    assert_eq!((right.cell_x, left.cell_x), (6, 1));
    assert_eq!(distance_in_cells(&right, 1, 0, 2), distance_in_cells(&left, -1, 0, 2));
    assert!((distance_in_cells(&right, 1, 0, 2) - 2.0).abs() < 1e-9);
}

#[test]
fn axis_aligned_rays_are_finite_and_agree() {
    let g = room_8x8();
    for &(dx, dy, sx, sy) in &[(1i16, 0i16, 3i16, 0i16), (0, 1, 0, 3), (-1, 0, -7, 0), (0, -1, 0, -2)] {
        let a = cast(&g, 7, 9, dx, dy, 100).unwrap();
        let b = cast(&g, 7, 9, sx, sy, 100).unwrap();
        assert!(a.hit && b.hit);
        assert_eq!((a.cell_x, a.cell_y), (b.cell_x, b.cell_y));
        let da = distance_in_cells(&a, dx, dy, 2);
        let db = distance_in_cells(&b, sx, sy, 2);
        assert!(da.is_finite() && db.is_finite());
        assert!((da - db).abs() < 1e-9);
    }
    // A nearly axis-aligned ray lands within tolerance of the exact one.
    let a = cast(&g, 7, 9, 1, 0, 100).unwrap();
    let b = cast(&g, 7, 9, 10000, 1, 100).unwrap();
    assert_eq!((a.cell_x, a.cell_y), (b.cell_x, b.cell_y));
    assert!((distance_in_cells(&a, 1, 0, 2) - distance_in_cells(&b, 10000, 1, 2)).abs() < 1e-3);
}

#[test]
fn free_grid_misses_within_range() {
    let g = Grid::new(16, 16, 4).unwrap();
    for &(dx, dy) in &[(1i16, 0i16), (0, 1), (-1, 0), (0, -1), (3, -2), (-5, 7)] {
        let h = cast(&g, 32, 30, dx, dy, 10).unwrap();
        assert!(!h.hit);
        assert_eq!(h, RayHit { hit: false, cell_x: 0, cell_y: 0, num: 0, den: 0 });
    }
}

#[test]
fn range_stops_before_wall() {
    let g = room_8x8();
    // The wall is 5 world units away.
    assert!(!cast(&g, 9, 9, 1, 0, 5).unwrap().hit);
    assert!(cast(&g, 9, 9, 1, 0, 6).unwrap().hit);
}

#[test]
fn cast_twice_is_identical() {
    let g = room_8x8();
    let a = cast(&g, 5, 11, 3, -2, 100);
    let b = cast(&g, 5, 11, 3, -2, 100);
    assert_eq!(a, b);
}

#[test]
fn invalid_arguments() {
    let g = room_8x8();
    assert_eq!(cast(&g, 9, 9, 0, 0, 10), Err(CastError::InvalidArgument));
    assert_eq!(cast(&g, 9, 9, 1, 0, 0), Err(CastError::InvalidArgument));
    assert_eq!(sweep_angles(0, 100, 0), Err(CastError::InvalidArgument));
    assert_eq!(sweep(&g, 9, 9, &vec![], 10), Err(CastError::InvalidArgument));
    assert_eq!(sweep(&g, 9, 9, &vec![(1, 0), (0, 0)], 10), Err(CastError::InvalidArgument));
    assert!(Grid::new(0, 4, 1).is_err());
    assert!(Grid::new(4, 0, 1).is_err());
    assert!(Grid::new(4, 4, 0).is_err());
}

#[test]
fn origin_outside_grid_misses() {
    let g = room_8x8();
    assert!(!cast(&g, -20, 9, 1, 0, 1000).unwrap().hit);
    assert!(!cast(&g, 100, 9, 1, 0, 1000).unwrap().hit);
}

#[test]
fn grid_cells_toggle_and_bounds() {
    let mut g = Grid::new(4, 3, 16).unwrap();
    assert_eq!((g.width(), g.height(), g.cell_size()), (4, 3, 16));
    assert!(!g.is_occupied(2, 1));
    g.set_occupied(2, 1, true);
    assert!(g.is_occupied(2, 1));
    assert!(!g.is_occupied(1, 2));
    g.set_occupied(4, 0, true);
    g.set_occupied(-1, 0, true);
    assert!(!g.is_occupied(4, 0));
    assert!(!g.is_occupied(-1, 0));
    g.set_occupied(2, 1, false);
    assert!(!g.is_occupied(2, 1));
}

#[test]
fn sweep_five_rays_over_free_grid() {
    // A sixth of a turn, centred on half a turn.
    let angles = sweep_angles(32768, 10923, 5).unwrap();
    assert_eq!(angles, vec![27307, 30037, 32768, 35499, 38230]);
    for w in angles.windows(2) {
        assert!(w[0] < w[1]);
        let step = (w[1] - w[0]) as i64;
        assert!((step - 2730).abs() <= 1);
    }
    let dirs: Vec<(i16, i16)> = angles
        .iter()
        .map(|&a| {
            let rad = a as f64 / FULL_TURN as f64 * std::f64::consts::TAU;
            ((rad.cos() * 10000.0).round() as i16, (rad.sin() * 10000.0).round() as i16)
        })
        .collect();
    let g = Grid::new(64, 64, 4).unwrap();
    let hits = sweep(&g, 128, 128, &dirs, 40).unwrap();
    assert_eq!(hits.len(), 5);
    assert!(hits.iter().all(|h| !h.hit));
}

#[test]
fn sweep_angles_wrap_into_one_turn() {
    let angles = sweep_angles(0, 200, 3).unwrap();
    assert_eq!(angles, vec![FULL_TURN - 100, 0, 100]);
    assert_eq!(sweep_angles(70000, 50, 1).unwrap(), vec![70000 - FULL_TURN]);
}

#[test]
fn sweep_matches_single_casts() {
    let g = room_8x8();
    let dirs = vec![(1i16, 0i16), (0, 1), (-3, 2)];
    let hits = sweep(&g, 9, 9, &dirs, 100).unwrap();
    for (h, &(dx, dy)) in hits.iter().zip(dirs.iter()) {
        assert_eq!(*h, cast(&g, 9, 9, dx, dy, 100).unwrap());
    }
}

#[test]
fn reflected_grid_reflects_the_hit() {
    let mut g = Grid::new(8, 8, 2).unwrap();
    g.set_occupied(6, 4, true);
    let mut mirror = Grid::new(8, 8, 2).unwrap();
    mirror.set_occupied(1, 4, true);
    let a = cast(&g, 9, 9, 1, 0, 100).unwrap();
    let b = cast(&mirror, 16 - 9, 9, -1, 0, 100).unwrap();
    assert!(a.hit && b.hit);
    assert_eq!(a.cell_x, 7 - b.cell_x);
    assert_eq!((a.cell_y, a.num, a.den), (b.cell_y, b.num, b.den));
    assert_eq!((a.num, a.den), (3, 1));
}

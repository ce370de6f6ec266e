use brownian::env::{action_offset, ACTION_DIM};
use brownian::stencil::reflect_neighbours;

#[test]
fn borders_reflect() {
    assert_eq!(reflect_neighbours(0, 5), (0, 1));
    assert_eq!(reflect_neighbours(2, 5), (1, 3));
    assert_eq!(reflect_neighbours(4, 5), (3, 4));
    assert_eq!(reflect_neighbours(0, 1), (0, 0));
    assert_eq!(reflect_neighbours(0, 2), (0, 1));
    assert_eq!(reflect_neighbours(1, 2), (0, 1));
}

/// One exact sub-step of the stencil on an integer grid: with no decay the
/// total is unchanged, with decay its excess over the bath shrinks by the
/// decay factor.
fn scaled_step(grid: &[Vec<i64>], denom: i64, kx: i64, ky: i64, decay: i64, ambient: i64) -> Vec<Vec<i64>> {
    let h = grid.len();
    let w = grid[0].len();
    let mut out = vec![vec![0; w]; h];
    for y in 0..h {
        let (up, dn) = reflect_neighbours(y, h);
        for x in 0..w {
            let (left, right) = reflect_neighbours(x, w);
            let c = grid[y][x];
            let lap_x = grid[y][left] + grid[y][right] - 2 * c;
            let lap_y = grid[up][x] + grid[dn][x] - 2 * c;
            out[y][x] = denom * c + kx * lap_x + ky * lap_y - decay * (c - ambient);
        }
    }
    out
}

fn total(grid: &[Vec<i64>]) -> i64 {
    grid.iter().map(|row| row.iter().sum::<i64>()).sum()
}

#[test]
fn the_stencil_conserves_heat_without_decay() {
    for (h, w) in [(1, 1), (1, 7), (6, 1), (5, 9), (13, 4)] {
        let grid: Vec<Vec<i64>> =
            (0..h).map(|y| (0..w).map(|x| ((y * 7 + x * 13) % 23) as i64).collect()).collect();
        let next = scaled_step(&grid, 10, 2, 3, 0, 0);
        assert_eq!(total(&next), 10 * total(&grid), "{h}x{w}");
    }
}

#[test]
fn the_stencil_relaxes_the_excess_over_the_bath() {
    let (h, w) = (8usize, 11usize);
    let grid: Vec<Vec<i64>> =
        (0..h).map(|y| (0..w).map(|x| ((y * 5 + x * 3) % 17) as i64).collect()).collect();
    let (denom, decay, ambient) = (100, 8, 2);
    let next = scaled_step(&grid, denom, 20, 20, decay, ambient);
    let cells = (w * h) as i64;
    assert_eq!(
        total(&next) - denom * cells * ambient,
        (denom - decay) * (total(&grid) - cells * ambient)
    );
}

#[test]
fn action_rows_follow_the_slot() {
    assert_eq!(ACTION_DIM, 2);
    assert_eq!(action_offset(0, 4), Some(0));
    assert_eq!(action_offset(1, 4), Some(2));
    assert_eq!(action_offset(2, 4), None);
    assert_eq!(action_offset(1, 3), None);
    assert_eq!(action_offset(0, 0), None);
    assert_eq!(action_offset(u32::MAX, usize::MAX), Some(u32::MAX as usize * 2));
}

/// Inside the stability limit a sub-step creates no new extremes.
#[test]
fn the_stencil_creates_no_new_extremes() {
    let (h, w) = (9usize, 7usize);
    let mut grid: Vec<Vec<i64>> = vec![vec![0; w]; h];
    grid[4][3] = 1000;
    grid[0][0] = -250;
    // 2*kx + 2*ky + decay <= denom.
    let (denom, kx, ky, decay, ambient) = (100, 20, 25, 10, 3);
    let mut current = grid;
    for _ in 0..50 {
        let next = scaled_step(&current, denom, kx, ky, decay, ambient);
        let hi = current.iter().flatten().copied().max().unwrap().max(ambient);
        let lo = current.iter().flatten().copied().min().unwrap().min(ambient);
        for v in next.iter().flatten() {
            assert!(denom * lo <= *v && *v <= denom * hi);
        }
        // Back to the unscaled grid, rounding towards the bath keeps the bounds.
        current = next.iter().map(|row| row.iter().map(|v| v.div_euclid(denom)).collect()).collect();
    }
}

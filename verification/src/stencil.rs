//! The five-point stencil of the thermal grid, with reflecting borders.
//!
//! A sub-step of the field is
//!
//! ```text
//! T' = T + kx*(T[x-1] + T[x+1] - 2T) + ky*(T[y-1] + T[y+1] - 2T) - decay*(T - ambient)
//! ```
//!
//! where a neighbour outside the grid is the border cell itself (homogeneous
//! Neumann condition): the flux through the wall is zero. The temperatures
//! themselves are floating point and are computed by the caller; what stands
//! here is the index rule, and the proof, in exact arithmetic, that with this
//! rule the stencil only moves heat around: the total changes only through the
//! relaxation towards the bath.

use vstd::arithmetic::mul::{lemma_mul_is_distributive_add, lemma_mul_is_distributive_sub};
use vstd::prelude::*;

verus! {

/// Index of the neighbour before `i`; the first cell is its own neighbour.
pub open spec fn lower_neighbour(i: int) -> int {
    if i > 0 {
        i - 1
    } else {
        0
    }
}

/// Index of the neighbour after `i` among `n`; the last cell is its own
/// neighbour.
pub open spec fn upper_neighbour(i: int, n: int) -> int {
    if i + 1 < n {
        i + 1
    } else {
        n - 1
    }
}

/// The two neighbours of cell `i` along an axis of `n` cells, with
/// reflecting borders.
pub fn reflect_neighbours(i: usize, n: usize) -> (r: (usize, usize))
    requires
        i < n,
    ensures
        r.0 == lower_neighbour(i as int),
        r.1 == upper_neighbour(i as int, n as int),
        r.0 < n,
        r.1 < n,
{
    let lo = i.saturating_sub(1);
    let hi = if i + 1 < n - 1 {
        i + 1
    } else {
        n - 1
    };
    (lo, hi)
}

/// `f(0) + ... + f(n - 1)`.
pub open spec fn sum_to(f: spec_fn(int) -> int, n: int) -> int
    decreases n,
{
    if n <= 0 {
        0
    } else {
        sum_to(f, n - 1) + f(n - 1)
    }
}

/// Discrete second difference of `f` at `i`, along an axis of `n` cells.
pub open spec fn second_difference(f: spec_fn(int) -> int, i: int, n: int) -> int {
    f(lower_neighbour(i)) + f(upper_neighbour(i, n)) - 2 * f(i)
}

proof fn lemma_sum_ext(f: spec_fn(int) -> int, g: spec_fn(int) -> int, n: int)
    requires
        forall|i: int| 0 <= i < n ==> #[trigger] f(i) == g(i),
    ensures
        sum_to(f, n) == sum_to(g, n),
    decreases n,
{
    if n > 0 {
        lemma_sum_ext(f, g, n - 1);
    }
}

proof fn lemma_sum_add(f: spec_fn(int) -> int, g: spec_fn(int) -> int, fg: spec_fn(int) -> int, n: int)
    requires
        forall|i: int| 0 <= i < n ==> #[trigger] fg(i) == f(i) + g(i),
    ensures
        sum_to(fg, n) == sum_to(f, n) + sum_to(g, n),
    decreases n,
{
    if n > 0 {
        lemma_sum_add(f, g, fg, n - 1);
    }
}

proof fn lemma_sum_sub(f: spec_fn(int) -> int, g: spec_fn(int) -> int, fg: spec_fn(int) -> int, n: int)
    requires
        forall|i: int| 0 <= i < n ==> #[trigger] fg(i) == f(i) - g(i),
    ensures
        sum_to(fg, n) == sum_to(f, n) - sum_to(g, n),
    decreases n,
{
    if n > 0 {
        lemma_sum_sub(f, g, fg, n - 1);
    }
}

proof fn lemma_sum_scale(f: spec_fn(int) -> int, k: int, kf: spec_fn(int) -> int, n: int)
    requires
        forall|i: int| 0 <= i < n ==> #[trigger] kf(i) == k * f(i),
    ensures
        sum_to(kf, n) == k * sum_to(f, n),
    decreases n,
{
    if n > 0 {
        lemma_sum_scale(f, k, kf, n - 1);
        lemma_mul_is_distributive_add(k, sum_to(f, n - 1), f(n - 1));
    }
}

proof fn lemma_sum_const(f: spec_fn(int) -> int, c: int, n: int)
    requires
        n >= 0,
        forall|i: int| 0 <= i < n ==> #[trigger] f(i) == c,
    ensures
        sum_to(f, n) == n * c,
    decreases n,
{
    if n > 0 {
        lemma_sum_const(f, c, n - 1);
        assert(sum_to(f, n) == sum_to(f, n - 1) + f(n - 1));
        assert(f(n - 1) == c);
        assert(n * c == (n - 1) * c + c) by (nonlinear_arith);
    } else {
        assert(n * c == 0) by (nonlinear_arith)
            requires
                n == 0,
        ;
    }
}

proof fn lemma_second_difference_prefix(f: spec_fn(int) -> int, d: spec_fn(int) -> int, n: int, k: int)
    requires
        1 <= k < n,
        forall|i: int| 0 <= i < n ==> #[trigger] d(i) == second_difference(f, i, n),
    ensures
        sum_to(d, k) == f(k) - f(k - 1),
    decreases k,
{
    assert(sum_to(d, k) == sum_to(d, k - 1) + d(k - 1));
    assert(d(k - 1) == second_difference(f, k - 1, n));
    if k > 1 {
        lemma_second_difference_prefix(f, d, n, k - 1);
        assert(lower_neighbour(k - 1) == k - 2);
        assert(upper_neighbour(k - 1, n) == k);
    } else {
        assert(sum_to(d, 0) == 0);
        assert(lower_neighbour(0) == 0);
        assert(upper_neighbour(0, n) == 1);
    }
}

/// With reflecting borders the second differences along an axis add up to
/// nothing: what leaves a cell towards a neighbour arrives there.
pub proof fn lemma_second_differences_cancel(f: spec_fn(int) -> int, d: spec_fn(int) -> int, n: int)
    requires
        n >= 1,
        forall|i: int| 0 <= i < n ==> #[trigger] d(i) == second_difference(f, i, n),
    ensures
        sum_to(d, n) == 0,
{
    assert(sum_to(d, n) == sum_to(d, n - 1) + d(n - 1));
    assert(d(n - 1) == second_difference(f, n - 1, n));
    if n >= 2 {
        lemma_second_difference_prefix(f, d, n, n - 1);
        assert(lower_neighbour(n - 1) == n - 2);
        assert(upper_neighbour(n - 1, n) == n - 1);
    } else {
        assert(sum_to(d, 0) == 0);
        assert(lower_neighbour(0) == 0);
        assert(upper_neighbour(0, n) == 0);
    }
}

/// Grid cell `(x, y)`, rows indexed by `y`.
pub open spec fn cell(grid: Seq<Seq<int>>, x: int, y: int) -> int {
    grid[y][x]
}

/// `grid` has `h` rows of `w` cells each.
pub open spec fn is_grid(grid: Seq<Seq<int>>, w: int, h: int) -> bool {
    &&& w >= 1
    &&& h >= 1
    &&& grid.len() == h
    &&& forall|y: int| 0 <= y < h ==> (#[trigger] grid[y]).len() == w
}

/// Sum of row `y`.
pub open spec fn row_total(grid: Seq<Seq<int>>, y: int, w: int) -> int {
    sum_to(|x: int| cell(grid, x, y), w)
}

/// Sum of every cell of the grid.
pub open spec fn total(grid: Seq<Seq<int>>, w: int, h: int) -> int {
    sum_to(|y: int| row_total(grid, y, w), h)
}

/// One sub-step of the stencil at cell `(x, y)`, in exact arithmetic and
/// scaled by `denom`: the coefficients are `kx / denom`, `ky / denom` and
/// `decay / denom`, and the value is `denom` times the new temperature.
pub open spec fn scaled_step_cell(
    grid: Seq<Seq<int>>,
    w: int,
    h: int,
    x: int,
    y: int,
    denom: int,
    kx: int,
    ky: int,
    decay: int,
    ambient: int,
) -> int {
    let c = cell(grid, x, y);
    let lap_x = second_difference(|i: int| cell(grid, i, y), x, w);
    let lap_y = second_difference(|j: int| cell(grid, x, j), y, h);
    denom * c + kx * lap_x + ky * lap_y - decay * (c - ambient)
}

/// The whole grid after one sub-step, scaled by `denom` as in
/// [`scaled_step_cell`].
pub open spec fn scaled_step(
    grid: Seq<Seq<int>>,
    w: int,
    h: int,
    denom: int,
    kx: int,
    ky: int,
    decay: int,
    ambient: int,
) -> Seq<Seq<int>> {
    Seq::new(
        h as nat,
        |y: int|
            Seq::new(
                w as nat,
                |x: int| scaled_step_cell(grid, w, h, x, y, denom, kx, ky, decay, ambient),
            ),
    )
}

proof fn lemma_row_of_step(
    grid: Seq<Seq<int>>,
    w: int,
    h: int,
    y: int,
    denom: int,
    kx: int,
    ky: int,
    decay: int,
    ambient: int,
)
    requires
        is_grid(grid, w, h),
        0 <= y < h,
    ensures
        row_total(scaled_step(grid, w, h, denom, kx, ky, decay, ambient), y, w) == denom
            * row_total(grid, y, w) + ky * (row_total(grid, lower_neighbour(y), w) + row_total(
            grid,
            upper_neighbour(y, h),
            w,
        ) - 2 * row_total(grid, y, w)) - decay * (row_total(grid, y, w) - w * ambient),
{
    let next = scaled_step(grid, w, h, denom, kx, ky, decay, ambient);
    let c = |x: int| cell(grid, x, y);
    let lo = |x: int| cell(grid, x, lower_neighbour(y));
    let hi = |x: int| cell(grid, x, upper_neighbour(y, h));
    let lap_x = |x: int| second_difference(c, x, w);
    let lap_y = |x: int| lo(x) + hi(x) - 2 * c(x);
    let excess = |x: int| c(x) - ambient;
    let amb = |x: int| ambient;
    // The new row, split into the four parts of the stencil.
    let a = |x: int| denom * c(x);
    let b = |x: int| kx * lap_x(x);
    let d = |x: int| ky * lap_y(x);
    let e = |x: int| decay * excess(x);
    let ab = |x: int| a(x) + b(x);
    let abd = |x: int| ab(x) + d(x);
    let new_row = |x: int| cell(next, x, y);
    assert forall|x: int| 0 <= x < w implies #[trigger] new_row(x) == abd(x) - e(x) by {
        assert(second_difference(|i: int| cell(grid, i, y), x, w) == lap_x(x));
        assert(second_difference(|j: int| cell(grid, x, j), y, h) == lap_y(x));
    }
    lemma_sum_sub(abd, e, new_row, w);
    lemma_sum_add(ab, d, abd, w);
    lemma_sum_add(a, b, ab, w);
    lemma_sum_scale(c, denom, a, w);
    lemma_sum_scale(lap_x, kx, b, w);
    lemma_second_differences_cancel(c, lap_x, w);
    lemma_sum_scale(lap_y, ky, d, w);
    lemma_sum_scale(excess, decay, e, w);
    let lo_hi = |x: int| lo(x) + hi(x);
    let two_c = |x: int| 2 * c(x);
    lemma_sum_sub(lo_hi, two_c, lap_y, w);
    lemma_sum_add(lo, hi, lo_hi, w);
    lemma_sum_scale(c, 2, two_c, w);
    lemma_sum_sub(c, amb, excess, w);
    lemma_sum_const(amb, ambient, w);
    lemma_sum_ext(new_row, |x: int| cell(next, x, y), w);
    lemma_sum_ext(c, |x: int| cell(grid, x, y), w);
    lemma_sum_ext(lo, |x: int| cell(grid, x, lower_neighbour(y)), w);
    lemma_sum_ext(hi, |x: int| cell(grid, x, upper_neighbour(y, h)), w);
    lemma_mul_is_distributive_sub(decay, row_total(grid, y, w), w * ambient);
}

/// One sub-step of the stencil changes the total heat only through the
/// relaxation towards the bath: the exchanges between neighbours cancel out.
/// With `denom` the common denominator of the coefficients,
/// `denom * total' == denom * total - decay * (total - cells * ambient)`.
pub proof fn lemma_step_total(
    grid: Seq<Seq<int>>,
    w: int,
    h: int,
    denom: int,
    kx: int,
    ky: int,
    decay: int,
    ambient: int,
)
    requires
        is_grid(grid, w, h),
    ensures
        total(scaled_step(grid, w, h, denom, kx, ky, decay, ambient), w, h) == denom * total(
            grid,
            w,
            h,
        ) - decay * (total(grid, w, h) - w * h * ambient),
{
    let next = scaled_step(grid, w, h, denom, kx, ky, decay, ambient);
    let r = |y: int| row_total(grid, y, w);
    let a = |y: int| denom * r(y);
    let lap = |y: int| second_difference(r, y, h);
    let b = |y: int| ky * lap(y);
    let excess = |y: int| r(y) - w * ambient;
    let amb = |y: int| w * ambient;
    let e = |y: int| decay * excess(y);
    let ab = |y: int| a(y) + b(y);
    let new_rows = |y: int| row_total(next, y, w);
    assert forall|y: int| 0 <= y < h implies #[trigger] new_rows(y) == ab(y) - e(y) by {
        lemma_row_of_step(grid, w, h, y, denom, kx, ky, decay, ambient);
    }
    lemma_sum_sub(ab, e, new_rows, h);
    lemma_sum_add(a, b, ab, h);
    lemma_sum_scale(r, denom, a, h);
    lemma_sum_scale(lap, ky, b, h);
    lemma_second_differences_cancel(r, lap, h);
    lemma_sum_scale(excess, decay, e, h);
    lemma_sum_sub(r, amb, excess, h);
    lemma_sum_const(amb, w * ambient, h);
    lemma_sum_ext(new_rows, |y: int| row_total(next, y, w), h);
    lemma_sum_ext(r, |y: int| row_total(grid, y, w), h);
    assert(h * (w * ambient) == w * h * ambient) by (nonlinear_arith);
    lemma_mul_is_distributive_sub(decay, total(grid, w, h), w * h * ambient);
}

/// Without decay the stencil conserves heat exactly: the new total is the
/// old one.
pub proof fn lemma_step_conserves_heat(
    grid: Seq<Seq<int>>,
    w: int,
    h: int,
    denom: int,
    kx: int,
    ky: int,
    ambient: int,
)
    requires
        is_grid(grid, w, h),
    ensures
        total(scaled_step(grid, w, h, denom, kx, ky, 0, ambient), w, h) == denom * total(
            grid,
            w,
            h,
        ),
{
    lemma_step_total(grid, w, h, denom, kx, ky, 0, ambient);
}

/// With decay the mean relaxes towards the bath: the excess of heat over the
/// bath is multiplied by `(denom - decay) / denom` at every sub-step.
pub proof fn lemma_step_relaxes_towards_ambient(
    grid: Seq<Seq<int>>,
    w: int,
    h: int,
    denom: int,
    kx: int,
    ky: int,
    decay: int,
    ambient: int,
)
    requires
        is_grid(grid, w, h),
    ensures
        total(scaled_step(grid, w, h, denom, kx, ky, decay, ambient), w, h) - denom * (w * h
            * ambient) == (denom - decay) * (total(grid, w, h) - w * h * ambient),
{
    lemma_step_total(grid, w, h, denom, kx, ky, decay, ambient);
    let t = total(grid, w, h);
    let n = w * h * ambient;
    assert(denom * t - decay * (t - n) - denom * n == (denom - decay) * (t - n))
        by (nonlinear_arith);
}

/// Every cell of `grid` lies in `[lo, hi]`.
pub open spec fn bounded_by(grid: Seq<Seq<int>>, w: int, h: int, lo: int, hi: int) -> bool {
    forall|x: int, y: int| 0 <= x < w && 0 <= y < h ==> lo <= #[trigger] cell(grid, x, y) <= hi
}

proof fn lemma_weighted_bound(k: int, v: int, lo: int, hi: int)
    requires
        k >= 0,
        lo <= v <= hi,
    ensures
        k * lo <= k * v <= k * hi,
{
    assert(k * lo <= k * v <= k * hi) by (nonlinear_arith)
        requires
            k >= 0,
            lo <= v <= hi,
    ;
}

/// Within the stability limit of the explicit scheme (`2*kx + 2*ky + decay`
/// at most `denom`, none of them negative) a sub-step is a weighted average
/// of a cell, its four neighbours and the bath: it creates no new extremes,
/// so the field cannot diverge however many sub-steps are chained.
pub proof fn lemma_step_within_bounds(
    grid: Seq<Seq<int>>,
    w: int,
    h: int,
    x: int,
    y: int,
    denom: int,
    kx: int,
    ky: int,
    decay: int,
    ambient: int,
    lo: int,
    hi: int,
)
    requires
        is_grid(grid, w, h),
        0 <= x < w,
        0 <= y < h,
        kx >= 0,
        ky >= 0,
        decay >= 0,
        2 * kx + 2 * ky + decay <= denom,
        bounded_by(grid, w, h, lo, hi),
        lo <= ambient <= hi,
    ensures
        denom * lo <= scaled_step_cell(grid, w, h, x, y, denom, kx, ky, decay, ambient) <= denom
            * hi,
{
    let c = cell(grid, x, y);
    let l = cell(grid, lower_neighbour(x), y);
    let r = cell(grid, upper_neighbour(x, w), y);
    let u = cell(grid, x, lower_neighbour(y));
    let d = cell(grid, x, upper_neighbour(y, h));
    let rest = denom - 2 * kx - 2 * ky - decay;
    assert(lo <= l <= hi && lo <= r <= hi && lo <= u <= hi && lo <= d <= hi && lo <= c <= hi);
    let v = scaled_step_cell(grid, w, h, x, y, denom, kx, ky, decay, ambient);
    assert(second_difference(|i: int| cell(grid, i, y), x, w) == l + r - 2 * c);
    assert(second_difference(|j: int| cell(grid, x, j), y, h) == u + d - 2 * c);
    assert(v == denom * c + kx * (l + r - 2 * c) + ky * (u + d - 2 * c) - decay * (c - ambient));
    lemma_step_as_weighted_sum(c, l, r, u, d, denom, kx, ky, decay, ambient);
    lemma_weighted_bound(rest, c, lo, hi);
    lemma_weighted_bound(kx, l, lo, hi);
    lemma_weighted_bound(kx, r, lo, hi);
    lemma_weighted_bound(ky, u, lo, hi);
    lemma_weighted_bound(ky, d, lo, hi);
    lemma_weighted_bound(decay, ambient, lo, hi);
    lemma_weights_sum_to_denom(lo, denom, kx, ky, decay);
    lemma_weights_sum_to_denom(hi, denom, kx, ky, decay);
}

/// One sub-step of a cell, regrouped by the value each weight multiplies.
proof fn lemma_step_as_weighted_sum(
    c: int,
    l: int,
    r: int,
    u: int,
    d: int,
    denom: int,
    kx: int,
    ky: int,
    decay: int,
    ambient: int,
)
    ensures
        denom * c + kx * (l + r - 2 * c) + ky * (u + d - 2 * c) - decay * (c - ambient) == (denom
            - 2 * kx - 2 * ky - decay) * c + kx * l + kx * r + ky * u + ky * d + decay * ambient,
{
    lemma_spread_second_difference(kx, l, r, c);
    lemma_spread_second_difference(ky, u, d, c);
    assert(decay * (c - ambient) == decay * c - decay * ambient) by (nonlinear_arith);
    assert((denom - 2 * kx - 2 * ky - decay) * c == denom * c - 2 * (kx * c) - 2 * (ky * c)
        - decay * c) by (nonlinear_arith);
}

/// A weight spread over a second difference.
proof fn lemma_spread_second_difference(k: int, a: int, b: int, c: int)
    by (nonlinear_arith)
    ensures
        k * (a + b - 2 * c) == k * a + k * b - 2 * (k * c),
{
}

/// The six weights of a sub-step add up to `denom`.
proof fn lemma_weights_sum_to_denom(t: int, denom: int, kx: int, ky: int, decay: int)
    by (nonlinear_arith)
    ensures
        (denom - 2 * kx - 2 * ky - decay) * t + kx * t + kx * t + ky * t + ky * t + decay * t
            == denom * t,
{
}

} // verus!

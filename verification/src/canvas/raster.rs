//! The mathematical model behind the drawing routines: row-major pixel
//! addressing, the signed reading of the brush radius, the Bresenham walk
//! used for lines, disks and integer square roots.
use vstd::prelude::*;
use crate::canvas::canvas_pos::CanvasPos;

verus! {

// ---------------------------------------------------------------------------
// Integers
// ---------------------------------------------------------------------------

/// The value of `u.cast_signed()`: the bits of `u` read in two's complement.
pub open spec fn signed_of(u: u32) -> int {
    if u <= 0x7fff_ffff {
        u as int
    } else {
        u as int - 0x1_0000_0000
    }
}

/// Whether `v` is a value of `i32`.
pub open spec fn fits_i32(v: int) -> bool {
    i32::MIN <= v <= i32::MAX
}

/// Absolute value on mathematical integers.
pub open spec fn iabs(v: int) -> int {
    if v < 0 {
        -v
    } else {
        v
    }
}

/// Computes `u.cast_signed()`.
pub(crate) fn cast_signed(u: u32) -> (s: i32)
    ensures
        s as int == signed_of(u),
{
    if u <= 0x7fff_ffff {
        u as i32
    } else {
        (u - 0x8000_0000) as i32 - 0x7fff_ffff - 1
    }
}

/// The square root of `n`, rounded down: what `i32::isqrt` computes, found
/// by bisection.
pub(crate) fn isqrt(n: i32) -> (root: i32)
    requires
        n >= 0,
    ensures
        root >= 0,
        root * root <= n,
        n < (root + 1) * (root + 1),
{
    // 46341 * 46341 exceeds `i32::MAX`, so the root lies in `0 .. 46341`.
    let mut lo: i64 = 0;
    let mut hi: i64 = 46341;
    while hi - lo > 1
        invariant
            0 <= lo < hi <= 46341,
            lo * lo <= n,
            n < hi * hi,
        decreases hi - lo,
    {
        let mid = lo + (hi - lo) / 2;
        assert(0 <= mid * mid <= 46341 * 46341) by (nonlinear_arith)
            requires
                0 <= mid <= 46341,
        ;
        if mid * mid <= n as i64 {
            lo = mid;
        } else {
            hi = mid;
        }
    }
    lo as i32
}

// ---------------------------------------------------------------------------
// Pixel addressing
// ---------------------------------------------------------------------------

/// Whether `(x, y)` is one of the `width * height` pixels of a grid.
pub open spec fn in_grid(width: u32, height: u32, x: int, y: int) -> bool {
    0 <= x < width && 0 <= y < height
}

/// The row-major index of pixel `(x, y)`.
pub open spec fn grid_index(width: u32, x: int, y: int) -> int {
    y * width + x
}

/// The index of a grid pixel lies in `0 .. width * height`.
pub proof fn lemma_grid_index_bounds(width: u32, height: u32, x: int, y: int)
    requires
        in_grid(width, height, x, y),
    ensures
        0 <= grid_index(width, x, y) < width * height,
        grid_index(width, x, y) <= width * height - 1,
{
    assert(0 <= y * width) by (nonlinear_arith)
        requires
            0 <= y,
            0 <= width,
    ;
    assert(y * width + width <= height * width) by (nonlinear_arith)
        requires
            y + 1 <= height,
            0 <= width,
    ;
    assert(height * width == width * height) by (nonlinear_arith);
}

/// A grid pixel's index lies in the index range of row `row` exactly when the
/// pixel is on that row.
pub proof fn lemma_grid_index_row(width: u32, height: u32, x: int, y: int, row: int)
    requires
        in_grid(width, height, x, y),
        0 <= row,
    ensures
        (row * width <= grid_index(width, x, y) < row * width + width) <==> y == row,
{
    if y < row {
        assert(y * width + width <= row * width) by (nonlinear_arith)
            requires
                y + 1 <= row,
                0 <= width,
        ;
    } else if y > row {
        assert(row * width + width <= y * width) by (nonlinear_arith)
            requires
                row + 1 <= y,
                0 <= width,
        ;
    }
}

/// Distinct grid pixels have distinct indices.
pub proof fn lemma_grid_index_injective(width: u32, height: u32, x1: int, y1: int, x2: int, y2: int)
    requires
        in_grid(width, height, x1, y1),
        in_grid(width, height, x2, y2),
        grid_index(width, x1, y1) == grid_index(width, x2, y2),
    ensures
        x1 == x2,
        y1 == y2,
{
    lemma_grid_index_row(width, height, x1, y1, y2);
    lemma_grid_index_row(width, height, x2, y2, y2);
}

/// Every index below `width * height` is the index of a grid pixel.
pub proof fn lemma_grid_every_index(width: u32, height: u32, i: int)
    requires
        0 <= i < width * height,
    ensures
        in_grid(width, height, i % (width as int), i / (width as int)),
        grid_index(width, i % (width as int), i / (width as int)) == i,
{
    let w = width as int;
    assert(w > 0) by (nonlinear_arith)
        requires
            0 <= i < w * height,
            0 <= height,
    ;
    assert(i == (i / w) * w + i % w && 0 <= i % w < w && 0 <= i / w) by (nonlinear_arith)
        requires
            w > 0,
            0 <= i,
    ;
    assert(i / w < height) by (nonlinear_arith)
        requires
            w > 0,
            0 <= i < w * height,
            i == (i / w) * w + i % w,
            0 <= i % w,
    ;
}

// ---------------------------------------------------------------------------
// Lines
// ---------------------------------------------------------------------------

/// Horizontal distance between the end points.
pub open spec fn line_dx(p1: CanvasPos, p2: CanvasPos) -> int {
    iabs(p1.x - p2.x)
}

/// Vertical distance between the end points.
pub open spec fn line_dy(p1: CanvasPos, p2: CanvasPos) -> int {
    iabs(p1.y - p2.y)
}

/// Horizontal direction of the walk from `p1` to `p2`.
pub open spec fn line_sx(p1: CanvasPos, p2: CanvasPos) -> int {
    if p1.x < p2.x {
        1
    } else {
        -1
    }
}

/// Vertical direction of the walk from `p1` to `p2`.
pub open spec fn line_sy(p1: CanvasPos, p2: CanvasPos) -> int {
    if p1.y < p2.y {
        1
    } else {
        -1
    }
}

/// A line is shallow when it is at least as wide as it is tall.
pub open spec fn line_is_shallow(p1: CanvasPos, p2: CanvasPos) -> bool {
    line_dx(p1, p2) >= line_dy(p1, p2)
}

/// The number of steps of the walk: the larger of the two distances.
pub open spec fn line_steps(p1: CanvasPos, p2: CanvasPos) -> nat {
    if line_is_shallow(p1, p2) {
        line_dx(p1, p2) as nat
    } else {
        line_dy(p1, p2) as nat
    }
}

/// One step of Bresenham's walk from state `(x, y, err)`: `x` advances when
/// twice the error exceeds `-dy`, `y` advances when it is below `dx`, and the
/// error pays `dy` for an `x` move and earns `dx` for a `y` move.
pub open spec fn line_step(p1: CanvasPos, p2: CanvasPos, s: (int, int, int)) -> (int, int, int) {
    let dx = line_dx(p1, p2);
    let dy = line_dy(p1, p2);
    let e2 = 2 * s.2;
    let moves_x = e2 > -dy;
    let moves_y = e2 < dx;
    (
        if moves_x {
            s.0 + line_sx(p1, p2)
        } else {
            s.0
        },
        if moves_y {
            s.1 + line_sy(p1, p2)
        } else {
            s.1
        },
        s.2 - (if moves_x {
            dy
        } else {
            0
        }) + (if moves_y {
            dx
        } else {
            0
        }),
    )
}

/// The state of the walk after `k` steps; it starts at `p1` with error `dx - dy`.
pub open spec fn line_state(p1: CanvasPos, p2: CanvasPos, k: nat) -> (int, int, int)
    decreases k,
{
    if k == 0 {
        (p1.x as int, p1.y as int, line_dx(p1, p2) - line_dy(p1, p2))
    } else {
        line_step(p1, p2, line_state(p1, p2, (k - 1) as nat))
    }
}

/// The `k`-th pixel of the line from `p1` to `p2`.
pub open spec fn line_point(p1: CanvasPos, p2: CanvasPos, k: nat) -> (int, int) {
    let s = line_state(p1, p2, k);
    (s.0, s.1)
}

/// How far the walk has gone along x after reaching state `s`.
pub open spec fn line_x_progress(p1: CanvasPos, p2: CanvasPos, s: (int, int, int)) -> int {
    if p1.x < p2.x {
        s.0 - p1.x
    } else {
        p1.x - s.0
    }
}

/// How far the walk has gone along y after reaching state `s`.
pub open spec fn line_y_progress(p1: CanvasPos, p2: CanvasPos, s: (int, int, int)) -> int {
    if p1.y < p2.y {
        s.1 - p1.y
    } else {
        p1.y - s.1
    }
}

/// What every state of the walk satisfies: it has progressed `i` along x and
/// `j` along y without passing `p2`, the error is `dx - dy + j*dx - i*dy`, the
/// major axis has advanced once per step, and the error keeps the major axis
/// moving.
pub open spec fn line_state_inv(p1: CanvasPos, p2: CanvasPos, k: nat) -> bool {
    let s = line_state(p1, p2, k);
    let dx = line_dx(p1, p2);
    let dy = line_dy(p1, p2);
    let i = line_x_progress(p1, p2, s);
    let j = line_y_progress(p1, p2, s);
    &&& 0 <= i <= dx
    &&& 0 <= j <= dy
    &&& s.2 == dx - dy + j * dx - i * dy
    &&& dx >= dy ==> i == k
    &&& dx < dy ==> j == k
    &&& dx >= dy && dx > 0 ==> 2 * s.2 > -dy
    &&& dx == dy ==> s.2 == 0
    &&& dx < dy ==> 2 * s.2 < dx
    &&& dx >= dy ==> dx - 2 * dy <= 2 * s.2 <= 3 * dx - 2 * dy
    &&& dx < dy ==> 2 * dx - 3 * dy <= 2 * s.2 <= 2 * dx - dy
}

/// Every state of the walk up to `line_steps` satisfies `line_state_inv`.
pub proof fn lemma_line_state_inv(p1: CanvasPos, p2: CanvasPos, k: nat)
    requires
        k <= line_steps(p1, p2),
    ensures
        line_state_inv(p1, p2, k),
    decreases k,
{
    let dx = line_dx(p1, p2);
    let dy = line_dy(p1, p2);
    if k > 0 {
        let km = (k - 1) as nat;
        lemma_line_state_inv(p1, p2, km);
        let s = line_state(p1, p2, km);
        let t = line_state(p1, p2, k);
        assert(t == line_step(p1, p2, s));
        let i = line_x_progress(p1, p2, s);
        let j = line_y_progress(p1, p2, s);
        let moves_x = 2 * s.2 > -dy;
        let moves_y = 2 * s.2 < dx;
        let i2 = line_x_progress(p1, p2, t);
        let j2 = line_y_progress(p1, p2, t);
        assert(i2 == i + (if moves_x { 1int } else { 0 }));
        assert(j2 == j + (if moves_y { 1int } else { 0 }));
        if dx >= dy {
            // The walk has not reached the end of the major axis yet.
            assert(i < dx);
            assert(moves_x);
            if j == dy {
                assert(dy * dx - i * dy >= dy) by (nonlinear_arith)
                    requires
                        i < dx,
                        0 <= dy,
                ;
                assert(j * dx == dy * dx) by (nonlinear_arith)
                    requires
                        j == dy,
                ;
                assert(!moves_y);
            }
            if dx == dy {
                assert(moves_y);
            }
        } else {
            assert(j < dy);
            assert(moves_y);
            if i == dx {
                assert(j * dx - dx * dy <= -dx) by (nonlinear_arith)
                    requires
                        j < dy,
                        0 <= dx,
                ;
                assert(i * dy == dx * dy) by (nonlinear_arith)
                    requires
                        i == dx,
                ;
                assert(!moves_x);
            }
        }
        assert(t.2 == dx - dy + j2 * dx - i2 * dy) by (nonlinear_arith)
            requires
                s.2 == dx - dy + j * dx - i * dy,
                t.2 == s.2 - (if moves_x { dy } else { 0 }) + (if moves_y { dx } else { 0 }),
                i2 == i + (if moves_x { 1int } else { 0 }),
                j2 == j + (if moves_y { 1int } else { 0 }),
        ;
    }
}

/// The walk starts at `p1`, reaches `p2` after exactly `line_steps` steps,
/// and does not pass through `p2` before.
pub proof fn lemma_line_ends(p1: CanvasPos, p2: CanvasPos)
    ensures
        line_point(p1, p2, 0) == (p1.x as int, p1.y as int),
        line_point(p1, p2, line_steps(p1, p2)) == (p2.x as int, p2.y as int),
        forall|k: nat|
            k < line_steps(p1, p2) ==> #[trigger] line_point(p1, p2, k) != (p2.x as int, p2.y as int),
{
    let n = line_steps(p1, p2);
    let dx = line_dx(p1, p2);
    let dy = line_dy(p1, p2);
    lemma_line_state_inv(p1, p2, n);
    let s = line_state(p1, p2, n);
    let i = line_x_progress(p1, p2, s);
    let j = line_y_progress(p1, p2, s);
    if dx >= dy {
        if j < dy {
            assert(j * dx - i * dy <= -dx) by (nonlinear_arith)
                requires
                    j < dy,
                    i == dx,
                    0 <= dx,
            ;
        }
        assert(j == dy);
        assert(i == dx);
    } else {
        if i < dx {
            assert(j * dx - i * dy >= dy) by (nonlinear_arith)
                requires
                    i < dx,
                    j == dy,
                    0 <= dy,
            ;
        }
        assert(i == dx);
        assert(j == dy);
    }
    assert forall|k: nat| k < n implies #[trigger] line_point(p1, p2, k) != (p2.x as int, p2.y as int) by {
        lemma_line_state_inv(p1, p2, k);
    }
}

/// Whether the stamp drawn at the `k`-th pixel of the line covers `(x, y)`.
/// A line of brush radius `r` stamps, at each of its pixels `(px, py)`, a run
/// of `2r` pixels across its major axis: `py - r ..= py + r - 1` in column `px`
/// for a shallow line, `px - r ..= px + r - 1` in row `py` for a steep one.
pub open spec fn stamp_covers(p1: CanvasPos, p2: CanvasPos, r: int, k: nat, x: int, y: int) -> bool {
    let p = line_point(p1, p2, k);
    if line_is_shallow(p1, p2) {
        x == p.0 && p.1 - r <= y <= p.1 + r - 1
    } else {
        y == p.1 && p.0 - r <= x <= p.0 + r - 1
    }
}

/// Whether one of the first `n` stamps of the line covers `(x, y)`.
pub open spec fn line_covers_upto(p1: CanvasPos, p2: CanvasPos, r: int, n: nat, x: int, y: int) -> bool {
    exists|k: nat| k < n && #[trigger] stamp_covers(p1, p2, r, k, x, y)
}

/// Whether the line from `p1` to `p2` drawn with brush radius `r` covers `(x, y)`.
pub open spec fn line_covers(p1: CanvasPos, p2: CanvasPos, r: int, x: int, y: int) -> bool {
    line_covers_upto(p1, p2, r, line_steps(p1, p2) + 1, x, y)
}

/// The stamps up to `n + 1` are those up to `n` and stamp `n`.
pub proof fn lemma_line_covers_upto_succ(p1: CanvasPos, p2: CanvasPos, r: int, n: nat, x: int, y: int)
    ensures
        line_covers_upto(p1, p2, r, n + 1, x, y) == (line_covers_upto(p1, p2, r, n, x, y)
            || stamp_covers(p1, p2, r, n, x, y)),
{
    if line_covers_upto(p1, p2, r, n + 1, x, y) {
        let k = choose|k: nat| k < n + 1 && #[trigger] stamp_covers(p1, p2, r, k, x, y);
        if k < n {
            assert(line_covers_upto(p1, p2, r, n, x, y));
        }
    }
}

/// The arithmetic of one step from state `s` stays within `i32`: doubling the
/// error, paying `dy` when x moves, and the next error.
pub open spec fn line_step_fits(p1: CanvasPos, p2: CanvasPos, s: (int, int, int)) -> bool {
    let dy = line_dy(p1, p2);
    &&& fits_i32(2 * s.2)
    &&& (2 * s.2 > -dy ==> fits_i32(s.2 - dy))
    &&& fits_i32(line_step(p1, p2, s).2)
}

/// The bounds of the stamp at state `s`, `c - r` and `c + r - 1` with the
/// intermediate `c + r`, stay within `i32`, where `c` is the coordinate
/// across the major axis.
pub open spec fn line_stamp_fits(p1: CanvasPos, p2: CanvasPos, r: int, s: (int, int, int)) -> bool {
    let c = if line_is_shallow(p1, p2) {
        s.1
    } else {
        s.0
    };
    fits_i32(c - r) && fits_i32(c + r) && fits_i32(c + r - 1)
}

/// Drawing the line from `p1` to `p2` with brush radius `r` stays within
/// `i32`: the coordinate differences and their absolute values, every step
/// of the walk and every stamp.
pub open spec fn line_fits(p1: CanvasPos, p2: CanvasPos, r: int) -> bool {
    &&& i32::MIN < p1.x - p2.x <= i32::MAX
    &&& i32::MIN < p1.y - p2.y <= i32::MAX
    &&& forall|k: nat| k < line_steps(p1, p2) ==> line_step_fits(p1, p2, #[trigger] line_state(p1, p2, k))
    &&& forall|k: nat|
        k <= line_steps(p1, p2) ==> line_stamp_fits(p1, p2, r, #[trigger] line_state(p1, p2, k))
}

/// Consecutive pixels of a line are neighbours: each step moves each
/// coordinate by at most one, and the major coordinate by exactly one towards
/// `p2`.
pub proof fn lemma_line_connected(p1: CanvasPos, p2: CanvasPos, k: nat)
    requires
        k < line_steps(p1, p2),
    ensures
        iabs(line_point(p1, p2, k + 1).0 - line_point(p1, p2, k).0) <= 1,
        iabs(line_point(p1, p2, k + 1).1 - line_point(p1, p2, k).1) <= 1,
        line_is_shallow(p1, p2) ==> line_x_progress(p1, p2, line_state(p1, p2, k + 1))
            == line_x_progress(p1, p2, line_state(p1, p2, k)) + 1,
        !line_is_shallow(p1, p2) ==> line_y_progress(p1, p2, line_state(p1, p2, k + 1))
            == line_y_progress(p1, p2, line_state(p1, p2, k)) + 1,
{
    lemma_line_state_inv(p1, p2, k);
    lemma_line_state_inv(p1, p2, k + 1);
}

/// Every pixel of a line lies within half a pixel of the ideal line through
/// its end points, measured across the major axis: after `i` steps along x
/// and `j` along y, `|j - i * dy / dx| <= 1/2` for a shallow line and
/// `|i - j * dx / dy| <= 1/2` for a steep one.
pub proof fn lemma_line_close(p1: CanvasPos, p2: CanvasPos, k: nat)
    requires
        k <= line_steps(p1, p2),
    ensures
        ({
            let s = line_state(p1, p2, k);
            let i = line_x_progress(p1, p2, s);
            let j = line_y_progress(p1, p2, s);
            iabs(2 * (j * line_dx(p1, p2) - i * line_dy(p1, p2))) <= line_steps(p1, p2)
        }),
{
    lemma_line_state_inv(p1, p2, k);
}

/// A line visits `line_steps + 1` distinct pixels.
pub proof fn lemma_line_points_distinct(p1: CanvasPos, p2: CanvasPos, j: nat, k: nat)
    requires
        j < k <= line_steps(p1, p2),
    ensures
        line_point(p1, p2, j) != line_point(p1, p2, k),
{
    lemma_line_state_inv(p1, p2, j);
    lemma_line_state_inv(p1, p2, k);
}

/// A line drawn with a brush radius of at least one covers both of its end
/// points.
pub proof fn lemma_line_covers_endpoints(p1: CanvasPos, p2: CanvasPos, r: int)
    requires
        r >= 1,
    ensures
        line_covers(p1, p2, r, p1.x as int, p1.y as int),
        line_covers(p1, p2, r, p2.x as int, p2.y as int),
{
    lemma_line_ends(p1, p2);
    assert(stamp_covers(p1, p2, r, 0, p1.x as int, p1.y as int));
    assert(stamp_covers(p1, p2, r, line_steps(p1, p2), p2.x as int, p2.y as int));
}

/// A line from a point to itself is the single stamp at that point: a
/// vertical run of `2r` pixels from `p.y - r`.
pub proof fn lemma_line_single_point(p: CanvasPos, r: int, x: int, y: int)
    ensures
        line_covers(p, p, r, x, y) <==> (x == p.x && p.y - r <= y <= p.y + r - 1),
{
    lemma_line_ends(p, p);
    if line_covers(p, p, r, x, y) {
        let k = choose|k: nat| k < line_steps(p, p) + 1 && #[trigger] stamp_covers(p, p, r, k, x, y);
        assert(k == 0);
    }
    if x == p.x && p.y - r <= y <= p.y + r - 1 {
        assert(stamp_covers(p, p, r, 0, x, y));
    }
}

/// A vertical line of brush radius `r` covers the `2r` columns
/// `x - r ..= x + r - 1` around it, on every row from one end point to the
/// other, and nothing else.
pub proof fn lemma_vertical_line(p1: CanvasPos, p2: CanvasPos, r: int, x: int, y: int)
    requires
        p1.x == p2.x,
        p1.y != p2.y,
    ensures
        line_covers(p1, p2, r, x, y) <==> (p1.x - r <= x <= p1.x + r - 1 && (p1.y <= y <= p2.y
            || p2.y <= y <= p1.y)),
{
    let n = line_steps(p1, p2);
    if line_covers(p1, p2, r, x, y) {
        let k = choose|k: nat| k < n + 1 && #[trigger] stamp_covers(p1, p2, r, k, x, y);
        lemma_line_state_inv(p1, p2, k);
    }
    if p1.x - r <= x <= p1.x + r - 1 && (p1.y <= y <= p2.y || p2.y <= y <= p1.y) {
        let k = iabs(y - p1.y) as nat;
        lemma_line_state_inv(p1, p2, k);
        assert(stamp_covers(p1, p2, r, k, x, y));
    }
}

/// A horizontal line of brush radius `r` covers the `2r` rows
/// `y - r ..= y + r - 1` around it, in every column from one end point to
/// the other, and nothing else.
pub proof fn lemma_horizontal_line(p1: CanvasPos, p2: CanvasPos, r: int, x: int, y: int)
    requires
        p1.y == p2.y,
    ensures
        line_covers(p1, p2, r, x, y) <==> (p1.y - r <= y <= p1.y + r - 1 && (p1.x <= x <= p2.x
            || p2.x <= x <= p1.x)),
{
    let n = line_steps(p1, p2);
    if line_covers(p1, p2, r, x, y) {
        let k = choose|k: nat| k < n + 1 && #[trigger] stamp_covers(p1, p2, r, k, x, y);
        lemma_line_state_inv(p1, p2, k);
    }
    if p1.y - r <= y <= p1.y + r - 1 && (p1.x <= x <= p2.x || p2.x <= x <= p1.x) {
        let k = iabs(x - p1.x) as nat;
        lemma_line_state_inv(p1, p2, k);
        assert(stamp_covers(p1, p2, r, k, x, y));
    }
}

/// Around every pixel `(px, py)` of a line, the line covers the whole run of
/// `2r` pixels across its major axis: rows `py - r ..= py + r - 1` of column
/// `px` for a shallow line, columns `px - r ..= px + r - 1` of row `py` for a
/// steep one.
pub proof fn lemma_line_stamp_extent(p1: CanvasPos, p2: CanvasPos, r: int, k: nat, t: int)
    requires
        k <= line_steps(p1, p2),
    ensures
        line_dx(p1, p2) >= line_dy(p1, p2) && line_point(p1, p2, k).1 - r <= t <= line_point(
            p1,
            p2,
            k,
        ).1 + r - 1 ==> line_covers(p1, p2, r, line_point(p1, p2, k).0, t),
        line_dx(p1, p2) < line_dy(p1, p2) && line_point(p1, p2, k).0 - r <= t <= line_point(
            p1,
            p2,
            k,
        ).0 + r - 1 ==> line_covers(p1, p2, r, t, line_point(p1, p2, k).1),
{
    let p = line_point(p1, p2, k);
    if line_dx(p1, p2) >= line_dy(p1, p2) && p.1 - r <= t <= p.1 + r - 1 {
        assert(stamp_covers(p1, p2, r, k, p.0, t));
    }
    if line_dx(p1, p2) < line_dy(p1, p2) && p.0 - r <= t <= p.0 + r - 1 {
        assert(stamp_covers(p1, p2, r, k, t, p.1));
    }
}

/// The error term of the walk stays within one and a half times the larger
/// distance.
pub proof fn lemma_line_err_bound(p1: CanvasPos, p2: CanvasPos, k: nat)
    requires
        k <= line_steps(p1, p2),
    ensures
        -3 * line_steps(p1, p2) <= 2 * line_state(p1, p2, k).2 <= 3 * line_steps(p1, p2),
    decreases k,
{
    lemma_line_state_inv(p1, p2, k);
    if k > 0 {
        let km = (k - 1) as nat;
        lemma_line_err_bound(p1, p2, km);
        lemma_line_state_inv(p1, p2, km);
    }
}

/// The pixels of a line lie in the box spanned by its end points.
pub proof fn lemma_line_in_box(p1: CanvasPos, p2: CanvasPos, k: nat)
    requires
        k <= line_steps(p1, p2),
    ensures
        p1.x <= p2.x ==> p1.x <= line_point(p1, p2, k).0 <= p2.x,
        p2.x < p1.x ==> p2.x <= line_point(p1, p2, k).0 <= p1.x,
        p1.y <= p2.y ==> p1.y <= line_point(p1, p2, k).1 <= p2.y,
        p2.y < p1.y ==> p2.y <= line_point(p1, p2, k).1 <= p1.y,
{
    lemma_line_state_inv(p1, p2, k);
}

/// The stamp bounds `c - r`, `c + r` and `c + r - 1` of a coordinate `c`
/// fit in `i32`.
pub open spec fn stamp_bounds_fit(c: int, r: int) -> bool {
    fits_i32(c - r) && fits_i32(c + r) && fits_i32(c + r - 1)
}

/// A line whose distances are at most a third of `i32::MAX`, and whose end
/// points leave room for the brush, can be drawn within `i32`.
pub proof fn lemma_line_fits_when_short(p1: CanvasPos, p2: CanvasPos, r: int)
    requires
        3 * line_dx(p1, p2) <= i32::MAX,
        3 * line_dy(p1, p2) <= i32::MAX,
        stamp_bounds_fit(p1.x as int, r),
        stamp_bounds_fit(p1.y as int, r),
        stamp_bounds_fit(p2.x as int, r),
        stamp_bounds_fit(p2.y as int, r),
    ensures
        line_fits(p1, p2, r),
{
    let n = line_steps(p1, p2);
    assert forall|k: nat| k < n implies line_step_fits(p1, p2, #[trigger] line_state(p1, p2, k)) by {
        lemma_line_err_bound(p1, p2, k);
        lemma_line_err_bound(p1, p2, k + 1);
        assert(line_state(p1, p2, k + 1) == line_step(p1, p2, line_state(p1, p2, k)));
    }
    assert forall|k: nat| k <= n implies line_stamp_fits(p1, p2, r, #[trigger] line_state(p1, p2, k)) by {
        lemma_line_in_box(p1, p2, k);
    }
}

// ---------------------------------------------------------------------------
// Disks
// ---------------------------------------------------------------------------

/// Whether `(x, y)` lies in the disk of radius `r` around `(cx, cy)`: its
/// squared distance from the center is at most `r * r`. A negative radius
/// gives no disk.
pub open spec fn in_disk(cx: int, cy: int, r: int, x: int, y: int) -> bool {
    r >= 0 && (x - cx) * (x - cx) + (y - cy) * (y - cy) <= r * r
}

/// `d` is the square root of `n`, rounded down.
pub open spec fn is_floor_sqrt(n: int, d: int) -> bool {
    0 <= d && d * d <= n && n < (d + 1) * (d + 1)
}

/// `d` is the half width of the row at vertical offset `dy` of a disk of
/// radius `r`: the square root of `r * r - dy * dy`, rounded down.
pub open spec fn disk_half_width(r: int, dy: int, d: int) -> bool {
    is_floor_sqrt(r * r - dy * dy, d)
}

/// Filling the disk of radius `r` around `center` stays within `i32`:
/// negating the radius, the rows `center.y + dy`, and, when some row is not
/// above the canvas, the square of the radius and the ends `center.x - d`
/// and `center.x + d` of each such row.
pub open spec fn circle_fits(center: CanvasPos, r: int) -> bool {
    &&& r != i32::MIN
    &&& r >= 0 ==> {
        &&& center.y + r >= 0 ==> r * r <= i32::MAX
        &&& fits_i32(center.y - r)
        &&& fits_i32(center.y + r)
        &&& forall|dy: int, d: int|
            -r <= dy <= r && center.y + dy >= 0 && #[trigger] disk_half_width(r, dy, d) ==> fits_i32(
                center.x - d,
            ) && fits_i32(center.x + d)
    }
}

/// A disk whose radius is at most 46340 (so that its square fits in `i32`)
/// and that leaves room around its center in both directions can be filled
/// within `i32`.
pub proof fn lemma_circle_fits_when_small(center: CanvasPos, r: int)
    requires
        0 <= r <= 46340,
        fits_i32(center.x - r),
        fits_i32(center.x + r),
        fits_i32(center.y - r),
        fits_i32(center.y + r),
    ensures
        circle_fits(center, r),
{
    assert(r * r <= i32::MAX) by (nonlinear_arith)
        requires
            0 <= r <= 46340,
    ;
    assert forall|dy: int, d: int|
        -r <= dy <= r && center.y + dy >= 0 && #[trigger] disk_half_width(r, dy, d) implies fits_i32(
            center.x - d,
        ) && fits_i32(center.x + d) by {
        assert(dy * dy >= 0) by (nonlinear_arith);
        assert(d <= r) by (nonlinear_arith)
            requires
                0 <= d,
                d * d <= r * r - dy * dy,
                dy * dy >= 0,
                0 <= r,
        ;
    }
}

/// An integer `t` has `t * t <= n` exactly when it lies within the rounded
/// down square root of `n` from zero.
pub proof fn lemma_floor_sqrt_range(n: int, d: int, t: int)
    requires
        is_floor_sqrt(n, d),
    ensures
        t * t <= n <==> -d <= t <= d,
{
    if -d <= t <= d {
        assert(t * t <= d * d) by (nonlinear_arith)
            requires
                -d <= t <= d,
        ;
    } else {
        assert(t * t >= (d + 1) * (d + 1)) by (nonlinear_arith)
            requires
                t > d || t < -d,
                0 <= d,
        ;
    }
}

/// Every point of a disk lies within `r` rows of its center.
pub proof fn lemma_disk_rows(cx: int, cy: int, r: int, x: int, y: int)
    requires
        in_disk(cx, cy, r, x, y),
    ensures
        cy - r <= y <= cy + r,
{
    assert(r * r < (r + 1) * (r + 1)) by (nonlinear_arith)
        requires
            r >= 0,
    ;
    assert((x - cx) * (x - cx) >= 0) by (nonlinear_arith);
    lemma_floor_sqrt_range(r * r, r, y - cy);
}

/// On row `cy + dy` the disk is the run of pixels within the half width `d`
/// of the center column.
pub proof fn lemma_disk_row(cx: int, cy: int, r: int, dy: int, d: int, x: int)
    requires
        r >= 0,
        disk_half_width(r, dy, d),
    ensures
        in_disk(cx, cy, r, x, cy + dy) <==> cx - d <= x <= cx + d,
{
    lemma_floor_sqrt_range(r * r - dy * dy, d, x - cx);
}

/// A disk of radius zero is its center pixel alone.
pub proof fn lemma_disk_radius_zero(cx: int, cy: int, x: int, y: int)
    ensures
        in_disk(cx, cy, 0, x, y) <==> (x == cx && y == cy),
{
    assert((x - cx) * (x - cx) + (y - cy) * (y - cy) <= 0 ==> x == cx && y == cy) by (nonlinear_arith);
}

/// A disk of radius one is the center pixel and its four edge neighbours: it
/// is three pixels across.
pub proof fn lemma_disk_radius_one(cx: int, cy: int, x: int, y: int)
    ensures
        in_disk(cx, cy, 1, x, y) <==> iabs(x - cx) + iabs(y - cy) <= 1,
{
    let a = x - cx;
    let b = y - cy;
    if iabs(a) + iabs(b) <= 1 {
        assert(a * a + b * b <= 1) by (nonlinear_arith)
            requires
                iabs(a) + iabs(b) <= 1,
        ;
    } else {
        assert(a * a + b * b > 1) by (nonlinear_arith)
            requires
                iabs(a) + iabs(b) > 1,
        ;
    }
}

} // verus!

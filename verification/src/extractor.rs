//! Integer part of the screen-edge colour pipeline: grid averages of a BGRA frame, the edge
//! colours around the grid, and the time smoothing over the last frames.
use vstd::prelude::*;
use std::collections::VecDeque;
use vstd::arithmetic::div_mod::{lemma_fundamental_div_mod, lemma_fundamental_div_mod_converse};

verus! {

/// Average colour of one grid cell.
#[derive(Clone, Copy, Debug, PartialEq, Eq, Structural)]
pub struct Rgb {
    pub r: u8,
    pub g: u8,
    pub b: u8,
}

impl Rgb {
    /// All three channels are below `threshold`.
    pub fn is_black(&self, threshold: u8) -> (res: bool)
        ensures
            res == (self.r < threshold && self.g < threshold && self.b < threshold),
    {
        self.r < threshold && self.g < threshold && self.b < threshold
    }
}

/// Running sums (red, green, blue, number of pixels) of sampled pixels.
pub type Tally = (nat, nat, nat, nat);

pub open spec fn tally_zero() -> Tally {
    (0, 0, 0, 0)
}

pub open spec fn tally_add(a: Tally, b: Tally) -> Tally {
    (a.0 + b.0, a.1 + b.1, a.2 + b.2, a.3 + b.3)
}

/// The BGRA pixel at (x, y) of a frame with `pitch` bytes per row, counted once when its
/// blue, green and red bytes lie inside the frame, and not at all otherwise.
pub open spec fn sample(data: Seq<u8>, pitch: int, x: int, y: int) -> Tally {
    let off = y * pitch + x * 4;
    if 0 <= off && off + 2 < data.len() {
        (data[off + 2] as nat, data[off + 1] as nat, data[off] as nat, 1)
    } else {
        tally_zero()
    }
}

/// Distance left to cover from `a` up to `b` (zero once `a` reaches `b`).
pub open spec fn gap(a: int, b: int) -> nat {
    if a < b {
        (b - a) as nat
    } else {
        0
    }
}

/// Sums of the pixels x, x + step, ... below x1 on row y.
pub open spec fn row_tally(data: Seq<u8>, pitch: int, y: int, x: int, x1: int, step: int) -> Tally
    decreases gap(x, x1),
{
    if step <= 0 || x >= x1 {
        tally_zero()
    } else {
        tally_add(sample(data, pitch, x, y), row_tally(data, pitch, y, x + step, x1, step))
    }
}

/// Sums of the rows y, y + step, ... below y1, each sampled from x0 below x1.
pub open spec fn cell_tally(data: Seq<u8>, pitch: int, y: int, y1: int, x0: int, x1: int, step: int) -> Tally
    decreases gap(y, y1),
{
    if step <= 0 || y >= y1 {
        tally_zero()
    } else {
        tally_add(row_tally(data, pitch, y, x0, x1, step), cell_tally(data, pitch, y + step, y1, x0, x1, step))
    }
}

/// Number of sample positions a, a + step, ... below b.
pub open spec fn steps(a: int, b: int, step: int) -> nat
    decreases gap(a, b),
{
    if step <= 0 || a >= b {
        0
    } else {
        1 + steps(a + step, b, step)
    }
}

/// Sampling stride of a grid: an eighth of the larger cell side, but at least 4 pixels.
pub open spec fn grid_step(width: int, height: int, cols: int, rows: int) -> int {
    let cw = width / cols;
    let ch = height / rows;
    let a = if cw / 8 > 4 { cw / 8 } else { 4 };
    if ch / 8 > a { ch / 8 } else { a }
}

/// Range [lo, hi) of cell `i` of `n` along an axis of `size` pixels; with a sample width, the
/// first cell keeps only its first `sw` pixels and the last cell only its last `sw` pixels.
pub open spec fn cell_range(size: int, n: int, i: int, sw: int) -> (int, int) {
    let c = size / n;
    let lo = i * c;
    let hi = if (i + 1) * c < size { (i + 1) * c } else { size };
    if sw > 0 && i == 0 {
        (lo, if lo + sw < hi { lo + sw } else { hi })
    } else if sw > 0 && i + 1 == n {
        (if hi > sw { hi - sw } else { 0 }, hi)
    } else {
        (lo, hi)
    }
}

/// Mean colour of a tally, black for a tally without pixels.
pub open spec fn average(t: Tally) -> Rgb {
    if t.3 > 0 {
        Rgb { r: (t.0 / t.3) as u8, g: (t.1 / t.3) as u8, b: (t.2 / t.3) as u8 }
    } else {
        Rgb { r: 0, g: 0, b: 0 }
    }
}

/// Sums of the pixels sampled in cell (col, row).
pub open spec fn cell_sums(
    data: Seq<u8>,
    pitch: int,
    width: int,
    height: int,
    cols: int,
    rows: int,
    sw: int,
    col: int,
    row: int,
) -> Tally {
    let step = grid_step(width, height, cols, rows);
    let xr = cell_range(width, cols, col, sw);
    let yr = cell_range(height, rows, row, sw);
    cell_tally(data, pitch, yr.0, yr.1, xr.0, xr.1, step)
}

/// The grid of cell averages, row by row.
pub open spec fn captured_grid(
    data: Seq<u8>,
    pitch: int,
    width: int,
    height: int,
    cols: int,
    rows: int,
    sw: int,
) -> Seq<Rgb> {
    Seq::new(
        (cols * rows) as nat,
        |i: int| average(cell_sums(data, pitch, width, height, cols, rows, sw, i % cols, i / cols)),
    )
}

/// Every pixel offset on row y and every step along it stays within `u32`.
pub open spec fn row_fits(pitch: int, y: int, x: int, x1: int, step: int) -> bool
    decreases gap(x, x1),
{
    if step <= 0 || x >= x1 {
        true
    } else {
        &&& y * pitch + x * 4 <= u32::MAX
        &&& x + step <= u32::MAX
        &&& row_fits(pitch, y, x + step, x1, step)
    }
}

/// Every row of a cell fits, and every step between its rows stays within `u32`.
pub open spec fn cell_fits(pitch: int, y: int, y1: int, x0: int, x1: int, step: int) -> bool
    decreases gap(y, y1),
{
    if step <= 0 || y >= y1 {
        true
    } else {
        &&& row_fits(pitch, y, x0, x1, step)
        &&& y + step <= u32::MAX
        &&& cell_fits(pitch, y + step, y1, x0, x1, step)
    }
}

/// The frame geometry keeps all of the grid sampling arithmetic within `u32`.
pub open spec fn capture_fits(pitch: int, width: int, height: int, cols: int, rows: int, sw: int) -> bool {
    &&& cols >= 1
    &&& rows >= 1
    &&& cols * rows <= u32::MAX
    &&& forall|col: int, row: int|
        0 <= col < cols && 0 <= row < rows ==> #[trigger] cell_fits_at(pitch, width, height, cols, rows, sw, col, row)
}

pub open spec fn cell_fits_at(pitch: int, width: int, height: int, cols: int, rows: int, sw: int, col: int, row: int) -> bool {
    let step = grid_step(width, height, cols, rows);
    let xr = cell_range(width, cols, col, sw);
    let yr = cell_range(height, rows, row, sw);
    cell_fits(pitch, yr.0, yr.1, xr.0, xr.1, step)
}

// ---- bounds on the sums ----

proof fn lemma_row_bounds(data: Seq<u8>, pitch: int, y: int, x: int, x1: int, step: int)
    requires
        step > 0,
    ensures
        row_tally(data, pitch, y, x, x1, step).3 <= steps(x, x1, step),
        row_tally(data, pitch, y, x, x1, step).0 <= 255 * row_tally(data, pitch, y, x, x1, step).3,
        row_tally(data, pitch, y, x, x1, step).1 <= 255 * row_tally(data, pitch, y, x, x1, step).3,
        row_tally(data, pitch, y, x, x1, step).2 <= 255 * row_tally(data, pitch, y, x, x1, step).3,
    decreases gap(x, x1),
{
    if x < x1 {
        lemma_row_bounds(data, pitch, y, x + step, x1, step);
    }
}

pub proof fn lemma_cell_bounds(data: Seq<u8>, pitch: int, y: int, y1: int, x0: int, x1: int, step: int)
    requires
        step > 0,
    ensures
        cell_tally(data, pitch, y, y1, x0, x1, step).3 <= steps(y, y1, step) * steps(x0, x1, step),
        cell_tally(data, pitch, y, y1, x0, x1, step).0 <= 255 * cell_tally(data, pitch, y, y1, x0, x1, step).3,
        cell_tally(data, pitch, y, y1, x0, x1, step).1 <= 255 * cell_tally(data, pitch, y, y1, x0, x1, step).3,
        cell_tally(data, pitch, y, y1, x0, x1, step).2 <= 255 * cell_tally(data, pitch, y, y1, x0, x1, step).3,
    decreases gap(y, y1),
{
    if y < y1 {
        lemma_cell_bounds(data, pitch, y + step, y1, x0, x1, step);
        lemma_row_bounds(data, pitch, y, x0, x1, step);
        let ny = steps(y + step, y1, step);
        let nx = steps(x0, x1, step);
        assert((1 + ny) * nx == nx + ny * nx) by (nonlinear_arith);
    }
}

proof fn lemma_steps_span(a: int, b: int, step: int)
    requires
        step > 0,
        a < b + step,
    ensures
        steps(a, b, step) * step <= b - a + step - 1,
    decreases gap(a, b),
{
    if a < b {
        lemma_steps_span(a + step, b, step);
        let n = steps(a + step, b, step);
        assert(steps(a, b, step) == 1 + n);
        assert((1 + n) * step == step + n * step) by (nonlinear_arith);
    } else {
        assert(steps(a, b, step) == 0);
        assert(0 * step == 0);
    }
}

/// A stride of at least an eighth of the cell side and at least 4 covers the axis in fewer
/// than ten strides per cell.
proof fn lemma_axis_strides(size: int, n: int, step: int)
    requires
        size >= 0,
        n >= 1,
        step >= 4,
        step >= (size / n) / 8,
    ensures
        size < 10 * n * step,
{
    let q = size / n;
    lemma_fundamental_div_mod(size, n);
    lemma_fundamental_div_mod(q, 8);
    assert(q < 8 * step + 8);
    assert(q + 1 <= 10 * step);
    assert(size < n * (q + 1)) by (nonlinear_arith)
        requires
            size == n * q + size % n,
            size % n < n,
    ;
    assert(n * (q + 1) <= n * (10 * step)) by (nonlinear_arith)
        requires
            q + 1 <= 10 * step,
            n >= 1,
    ;
    assert(n * (10 * step) == 10 * n * step) by (nonlinear_arith);
}

/// Number of samples along one axis of a cell that lies within [0, size].
proof fn lemma_axis_samples(lo: int, hi: int, size: int, n: int, step: int)
    requires
        0 <= lo <= hi <= size,
        n >= 1,
        step >= 4,
        size < 10 * n * step,
    ensures
        steps(lo, hi, step) <= 10 * n,
{
    lemma_steps_span(lo, hi, step);
    let k = steps(lo, hi, step);
    assert(k * step < (10 * n + 1) * step) by (nonlinear_arith)
        requires
            k * step <= hi - lo + step - 1,
            hi - lo <= size,
            size < 10 * n * step,
    ;
    assert(k < 10 * n + 1) by (nonlinear_arith)
        requires
            k * step < (10 * n + 1) * step,
            step > 0,
    ;
}

/// Every cell range lies within its axis.
pub proof fn lemma_cell_range(size: int, n: int, i: int, sw: int)
    requires
        size >= 0,
        n >= 1,
        0 <= i < n,
        sw >= 0,
    ensures
        0 <= cell_range(size, n, i, sw).0 <= cell_range(size, n, i, sw).1 <= size,
        0 <= i * (size / n) <= (i + 1) * (size / n) <= size,
{
    let c = size / n;
    lemma_fundamental_div_mod(size, n);
    assert(0 <= i * c) by (nonlinear_arith)
        requires
            i >= 0,
            c >= 0,
    ;
    assert((i + 1) * c <= n * c) by (nonlinear_arith)
        requires
            i + 1 <= n,
            c >= 0,
    ;
    assert(i * c <= (i + 1) * c) by (nonlinear_arith)
        requires
            c >= 0,
    ;
}

/// Pixel count and channel sums of any cell of a capturable grid stay far below `u64` limits:
/// at most 100 samples per grid cell of the whole grid, and at most 255 per sample and channel.
proof fn lemma_cell_sums_small(
    data: Seq<u8>,
    pitch: int,
    width: int,
    height: int,
    cols: int,
    rows: int,
    sw: int,
    col: int,
    row: int,
)
    requires
        0 <= width <= u32::MAX,
        0 <= height <= u32::MAX,
        sw >= 0,
        cols >= 1,
        rows >= 1,
        cols * rows <= u32::MAX,
        0 <= col < cols,
        0 <= row < rows,
    ensures
        cell_sums(data, pitch, width, height, cols, rows, sw, col, row).3 <= 100 * cols * rows,
        cell_sums(data, pitch, width, height, cols, rows, sw, col, row).3 <= 100 * 0xffff_ffff,
{
    let step = grid_step(width, height, cols, rows);
    let xr = cell_range(width, cols, col, sw);
    let yr = cell_range(height, rows, row, sw);
    lemma_cell_range(width, cols, col, sw);
    lemma_cell_range(height, rows, row, sw);
    lemma_axis_strides(width, cols, step);
    lemma_axis_strides(height, rows, step);
    lemma_axis_samples(xr.0, xr.1, width, cols, step);
    lemma_axis_samples(yr.0, yr.1, height, rows, step);
    lemma_cell_bounds(data, pitch, yr.0, yr.1, xr.0, xr.1, step);
    let nx = steps(xr.0, xr.1, step);
    let ny = steps(yr.0, yr.1, step);
    assert(ny * nx <= (10 * rows) * (10 * cols)) by (nonlinear_arith)
        requires
            ny <= 10 * rows,
            nx <= 10 * cols,
    ;
    assert((10 * rows) * (10 * cols) == 100 * cols * rows) by (nonlinear_arith);
    assert(100 * cols * rows <= 100 * 0xffff_ffff) by (nonlinear_arith)
        requires
            cols * rows <= 0xffff_ffff,
    ;
}

/// Range of cell `i` along an axis (see `cell_range`).
fn axis_range(size: u32, n: u32, i: u32, sw: u32) -> (res: (u32, u32))
    requires
        n >= 1,
        i < n,
    ensures
        res.0 as int == cell_range(size as int, n as int, i as int, sw as int).0,
        res.1 as int == cell_range(size as int, n as int, i as int, sw as int).1,
{
    proof {
        lemma_cell_range(size as int, n as int, i as int, sw as int);
    }
    let c = size / n;
    let lo = i * c;
    let full = (i + 1) * c;
    let hi = if full < size { full } else { size };
    if sw > 0 && i == 0 {
        let end = if (sw as u64) < (hi as u64) { sw } else { hi };
        (lo, end)
    } else if sw > 0 && i + 1 == n {
        let start = if hi > sw { hi - sw } else { 0 };
        (start, hi)
    } else {
        (lo, hi)
    }
}

/// Sampling stride of the grid (see `grid_step`).
fn stride(width: u32, height: u32, cols: u32, rows: u32) -> (res: u32)
    requires
        cols >= 1,
        rows >= 1,
    ensures
        res as int == grid_step(width as int, height as int, cols as int, rows as int),
        res >= 4,
{
    let cw = width / cols;
    let ch = height / rows;
    let a: u32 = if cw / 8 > 4 { cw / 8 } else { 4 };
    if ch / 8 > a { ch / 8 } else { a }
}

/// Mean colour of the pixels sampled in one cell.
fn cell_average(data: &[u8], pitch: u32, x0: u32, x1: u32, y0: u32, y1: u32, step: u32) -> (res: Rgb)
    requires
        step > 0,
        cell_fits(pitch as int, y0 as int, y1 as int, x0 as int, x1 as int, step as int),
        cell_tally(data@, pitch as int, y0 as int, y1 as int, x0 as int, x1 as int, step as int).3
            <= 100 * 0xffff_ffff,
    ensures
        res == average(cell_tally(data@, pitch as int, y0 as int, y1 as int, x0 as int, x1 as int, step as int)),
{
    let ghost total = cell_tally(data@, pitch as int, y0 as int, y1 as int, x0 as int, x1 as int, step as int);
    proof {
        lemma_cell_bounds(data@, pitch as int, y0 as int, y1 as int, x0 as int, x1 as int, step as int);
    }
    let mut r_sum: u64 = 0;
    let mut g_sum: u64 = 0;
    let mut b_sum: u64 = 0;
    let mut count: u64 = 0;
    let mut y = y0;
    while y < y1
        invariant
            step > 0,
            cell_fits(pitch as int, y as int, y1 as int, x0 as int, x1 as int, step as int),
            total == cell_tally(data@, pitch as int, y0 as int, y1 as int, x0 as int, x1 as int, step as int),
            total.3 <= 100 * 0xffff_ffff,
            total.0 <= 255 * total.3,
            total.1 <= 255 * total.3,
            total.2 <= 255 * total.3,
            tally_add((r_sum as nat, g_sum as nat, b_sum as nat, count as nat),
                cell_tally(data@, pitch as int, y as int, y1 as int, x0 as int, x1 as int, step as int)) == total,
            r_sum <= 255 * count,
            g_sum <= 255 * count,
            b_sum <= 255 * count,
        decreases gap(y as int, y1 as int),
    {
        let ghost rest = cell_tally(data@, pitch as int, y + step, y1 as int, x0 as int, x1 as int, step as int);
        let mut x = x0;
        while x < x1
            invariant
                step > 0,
                y < y1,
                row_fits(pitch as int, y as int, x as int, x1 as int, step as int),
                y + step <= u32::MAX,
                cell_fits(pitch as int, y + step, y1 as int, x0 as int, x1 as int, step as int),
                rest == cell_tally(data@, pitch as int, y + step, y1 as int, x0 as int, x1 as int, step as int),
                total.3 <= 100 * 0xffff_ffff,
                total.0 <= 255 * total.3,
                total.1 <= 255 * total.3,
                total.2 <= 255 * total.3,
                tally_add(tally_add((r_sum as nat, g_sum as nat, b_sum as nat, count as nat),
                    row_tally(data@, pitch as int, y as int, x as int, x1 as int, step as int)), rest) == total,
                r_sum <= 255 * count,
                g_sum <= 255 * count,
                b_sum <= 255 * count,
            decreases gap(x as int, x1 as int),
        {
            let offset = y * pitch + x * 4;
            let off = offset as usize;
            if data.len() >= 3 && off <= data.len() - 3 {
                b_sum = b_sum + data[off] as u64;
                g_sum = g_sum + data[off + 1] as u64;
                r_sum = r_sum + data[off + 2] as u64;
                count = count + 1;
            }
            x = x + step;
        }
        y = y + step;
    }
    if count > 0 {
        assert(r_sum / count <= 255 && g_sum / count <= 255 && b_sum / count <= 255) by (nonlinear_arith)
            requires
                count > 0,
                r_sum <= 255 * count,
                g_sum <= 255 * count,
                b_sum <= 255 * count,
        ;
        Rgb { r: (r_sum / count) as u8, g: (g_sum / count) as u8, b: (b_sum / count) as u8 }
    } else {
        Rgb { r: 0, g: 0, b: 0 }
    }
}

/// Averages of the cells of a `cols` x `rows` grid laid over a BGRA frame (`pitch` bytes per
/// row), row by row. Each cell is sampled every `grid_step` pixels in both directions; with a
/// sample width the outer cells only look at the outermost `sample_width` pixels.
pub fn capture_grid(
    data: &[u8],
    pitch: u32,
    width: u32,
    height: u32,
    cols: u32,
    rows: u32,
    sample_width: u32,
) -> (res: Vec<Rgb>)
    requires
        capture_fits(pitch as int, width as int, height as int, cols as int, rows as int, sample_width as int),
    ensures
        res@ == captured_grid(data@, pitch as int, width as int, height as int, cols as int, rows as int,
            sample_width as int),
{
    let ghost target = captured_grid(data@, pitch as int, width as int, height as int, cols as int,
        rows as int, sample_width as int);
    let step = stride(width, height, cols, rows);
    let mut grid: Vec<Rgb> = Vec::with_capacity((cols * rows) as usize);
    let mut row: u32 = 0;
    while row < rows
        invariant
            capture_fits(pitch as int, width as int, height as int, cols as int, rows as int, sample_width as int),
            step as int == grid_step(width as int, height as int, cols as int, rows as int),
            target == captured_grid(data@, pitch as int, width as int, height as int, cols as int,
                rows as int, sample_width as int),
            row <= rows,
            grid@.len() == row * cols,
            forall|i: int| 0 <= i < grid@.len() ==> #[trigger] grid@[i] == target[i],
        decreases rows - row,
    {
        let mut col: u32 = 0;
        while col < cols
            invariant
                capture_fits(pitch as int, width as int, height as int, cols as int, rows as int,
                    sample_width as int),
                step as int == grid_step(width as int, height as int, cols as int, rows as int),
                target == captured_grid(data@, pitch as int, width as int, height as int, cols as int,
                    rows as int, sample_width as int),
                row < rows,
                col <= cols,
                grid@.len() == row * cols + col,
                forall|i: int| 0 <= i < grid@.len() ==> #[trigger] grid@[i] == target[i],
            decreases cols - col,
        {
            let (x0, x1) = axis_range(width, cols, col, sample_width);
            let (y0, y1) = axis_range(height, rows, row, sample_width);
            proof {
                assert(cell_fits_at(pitch as int, width as int, height as int, cols as int, rows as int,
                    sample_width as int, col as int, row as int));
                lemma_cell_sums_small(data@, pitch as int, width as int, height as int, cols as int,
                    rows as int, sample_width as int, col as int, row as int);
            }
            let cell = cell_average(data, pitch, x0, x1, y0, y1, step);
            proof {
                let i = row * cols + col;
                lemma_fundamental_div_mod_converse(i, cols as int, row as int, col as int);
                assert(i < cols * rows) by (nonlinear_arith)
                    requires
                        i == row * cols + col,
                        col < cols,
                        row < rows,
                ;
            }
            grid.push(cell);
            col = col + 1;
        }
        assert(row * cols + cols == (row + 1) * cols) by (nonlinear_arith);
        row = row + 1;
    }
    assert(grid@.len() == target.len()) by (nonlinear_arith)
        requires
            grid@.len() == row * cols,
            row == rows,
            target.len() == cols * rows,
    ;
    assert(grid@ =~= target);
    grid
}

/// Channel threshold below which an edge colour counts as black.
pub const BLACK_THRESHOLD: u8 = 10;

/// Row `r` of a row-major grid with `cols` columns.
pub open spec fn grid_row(g: Seq<Rgb>, cols: int, r: int) -> Seq<Rgb> {
    Seq::new(cols as nat, |c: int| g[r * cols + c])
}

/// Column `c` of a row-major grid with `cols` columns and `rows` rows.
pub open spec fn grid_col(g: Seq<Rgb>, cols: int, rows: int, c: int) -> Seq<Rgb> {
    Seq::new(rows as nat, |r: int| g[r * cols + c])
}

/// Every colour of the line is black.
pub open spec fn all_black(s: Seq<Rgb>) -> bool {
    forall|i: int|
        0 <= i < s.len() ==> (#[trigger] s[i]).r < BLACK_THRESHOLD && s[i].g < BLACK_THRESHOLD && s[i].b
            < BLACK_THRESHOLD
}

/// The top edge: the first row, or the second one when the first is black.
pub open spec fn top_edge(g: Seq<Rgb>, cols: int, rows: int) -> Seq<Rgb> {
    if all_black(grid_row(g, cols, 0)) && rows > 1 {
        grid_row(g, cols, 1)
    } else {
        grid_row(g, cols, 0)
    }
}

/// The bottom edge: the last row, or the one above it when the last is black.
pub open spec fn bottom_edge(g: Seq<Rgb>, cols: int, rows: int) -> Seq<Rgb> {
    if all_black(grid_row(g, cols, rows - 1)) && rows > 2 {
        grid_row(g, cols, rows - 2)
    } else {
        grid_row(g, cols, rows - 1)
    }
}

/// Edge colours in LED order: left edge upwards, top edge, right edge downwards, and the
/// bottom edge right to left when there are four edges; `reverse` runs the other way round
/// (right edge upwards, top edge right to left, left edge upwards, bottom edge left to right).
pub open spec fn border_of(g: Seq<Rgb>, cols: int, rows: int, edge_number: u8, reverse: bool) -> Seq<Rgb> {
    let top = top_edge(g, cols, rows);
    let bottom = bottom_edge(g, cols, rows);
    let left = grid_col(g, cols, rows, 0);
    let right = grid_col(g, cols, rows, cols - 1);
    if reverse {
        right.reverse() + top.reverse() + left.reverse() + (if edge_number >= 4 { bottom } else { seq![] })
    } else {
        left.reverse() + top + right + (if edge_number >= 4 { bottom.reverse() } else { seq![] })
    }
}

/// Whether every colour of the line is black.
fn line_is_black(line: &Vec<Rgb>) -> (res: bool)
    ensures
        res == all_black(line@),
{
    let mut i: usize = 0;
    while i < line.len()
        invariant
            i <= line@.len(),
            forall|k: int| 0 <= k < i ==> (#[trigger] line@[k]).r < BLACK_THRESHOLD && line@[k].g
                < BLACK_THRESHOLD && line@[k].b < BLACK_THRESHOLD,
        decreases line@.len() - i,
    {
        if !line[i].is_black(BLACK_THRESHOLD) {
            return false;
        }
        i = i + 1;
    }
    true
}

/// Row `r` of the grid as a vector.
fn row_of(grid: &[Rgb], cols: u32, rows: u32, r: u32) -> (res: Vec<Rgb>)
    requires
        r < rows,
        cols as int * rows as int <= grid@.len(),
    ensures
        res@ == grid_row(grid@, cols as int, r as int),
{
    let glen = grid.len();
    let mut out: Vec<Rgb> = Vec::new();
    let mut c: u32 = 0;
    while c < cols
        invariant
            r < rows,
            cols as int * rows as int <= grid@.len(),
            glen == grid@.len(),
            c <= cols,
            out@ =~= grid_row(grid@, cols as int, r as int).take(c as int),
        decreases cols - c,
    {
        assert(r as int * cols as int + c < cols as int * rows as int) by (nonlinear_arith)
            requires
                r < rows,
                c < cols,
        ;
        let idx = r as usize * cols as usize + c as usize;
        out.push(grid[idx]);
        c = c + 1;
    }
    out
}

/// Column `c` of the grid as a vector.
fn col_of(grid: &[Rgb], cols: u32, rows: u32, c: u32) -> (res: Vec<Rgb>)
    requires
        c < cols,
        cols as int * rows as int <= grid@.len(),
    ensures
        res@ == grid_col(grid@, cols as int, rows as int, c as int),
{
    let glen = grid.len();
    let mut out: Vec<Rgb> = Vec::new();
    let mut r: u32 = 0;
    while r < rows
        invariant
            c < cols,
            cols as int * rows as int <= grid@.len(),
            glen == grid@.len(),
            r <= rows,
            out@ =~= grid_col(grid@, cols as int, rows as int, c as int).take(r as int),
        decreases rows - r,
    {
        assert(r as int * cols as int + c < cols as int * rows as int) by (nonlinear_arith)
            requires
                r < rows,
                c < cols,
        ;
        let idx = r as usize * cols as usize + c as usize;
        out.push(grid[idx]);
        r = r + 1;
    }
    out
}

/// Appends `line` to `out`, back to front when `backwards`.
fn append_line(out: &mut Vec<Rgb>, line: &Vec<Rgb>, backwards: bool)
    ensures
        final(out)@ == old(out)@ + (if backwards { line@.reverse() } else { line@ }),
{
    let ghost start = out@;
    let n = line.len();
    let mut k: usize = 0;
    while k < n
        invariant
            n == line@.len(),
            k <= n,
            out@ =~= start + (if backwards { line@.reverse() } else { line@ }).take(k as int),
        decreases n - k,
    {
        if backwards {
            out.push(line[n - 1 - k]);
        } else {
            out.push(line[k]);
        }
        k = k + 1;
    }
    assert((if backwards { line@.reverse() } else { line@ }).take(n as int) =~= (if backwards {
        line@.reverse()
    } else {
        line@
    }));
}

/// Edge colours of the grid (see `border_of`); a black outer row is replaced by the row next
/// to it.
pub fn extract_border_colors(grid: &[Rgb], cols: u32, rows: u32, edge_number: u8, reverse: bool) -> (res: Vec<Rgb>)
    requires
        cols >= 1,
        rows >= 1,
        cols as int * rows as int <= grid@.len(),
        cols as int * rows as int <= u32::MAX,
    ensures
        res@ == border_of(grid@, cols as int, rows as int, edge_number, reverse),
{
    let top1 = row_of(grid, cols, rows, 0);
    let top = if line_is_black(&top1) && rows > 1 {
        row_of(grid, cols, rows, 1)
    } else {
        top1
    };
    let bot1 = row_of(grid, cols, rows, rows - 1);
    let bottom = if line_is_black(&bot1) && rows > 2 {
        row_of(grid, cols, rows, rows - 2)
    } else {
        bot1
    };
    let left = col_of(grid, cols, rows, 0);
    let right = col_of(grid, cols, rows, cols - 1);
    let mut colors: Vec<Rgb> = Vec::new();
    if reverse {
        append_line(&mut colors, &right, true);
        append_line(&mut colors, &top, true);
        append_line(&mut colors, &left, true);
        if edge_number >= 4 {
            append_line(&mut colors, &bottom, false);
        }
    } else {
        append_line(&mut colors, &left, true);
        append_line(&mut colors, &top, false);
        append_line(&mut colors, &right, false);
        if edge_number >= 4 {
            append_line(&mut colors, &bottom, true);
        }
    }
    assert(colors@ =~= border_of(grid@, cols as int, rows as int, edge_number, reverse));
    colors
}

/// Whether every offset and step of one row stays within `u32` (see `row_fits`).
fn row_fits_check(pitch: u32, y: u32, x0: u32, x1: u32, step: u32) -> (res: bool)
    requires
        step > 0,
    ensures
        res == row_fits(pitch as int, y as int, x0 as int, x1 as int, step as int),
{
    let mut x: u32 = x0;
    while x < x1
        invariant
            step > 0,
            row_fits(pitch as int, y as int, x0 as int, x1 as int, step as int) == row_fits(
                pitch as int,
                y as int,
                x as int,
                x1 as int,
                step as int,
            ),
        decreases gap(x as int, x1 as int),
    {
        assert(y as int * pitch as int <= 0xffff_ffff_ffff_ffff) by (nonlinear_arith)
            requires
                y <= 0xffff_ffffu32,
                pitch <= 0xffff_ffffu32,
        ;
        let a: u64 = y as u64 * pitch as u64;
        let max: u64 = 0xffff_ffff;
        if a > max || (x as u64) * 4 > max - a {
            return false;
        }
        if (x as u64) + (step as u64) > max {
            return false;
        }
        x = x + step;
    }
    true
}

/// Whether every offset and step of one cell stays within `u32` (see `cell_fits`).
fn cell_fits_check(pitch: u32, x0: u32, x1: u32, y0: u32, y1: u32, step: u32) -> (res: bool)
    requires
        step > 0,
    ensures
        res == cell_fits(pitch as int, y0 as int, y1 as int, x0 as int, x1 as int, step as int),
{
    let mut y: u32 = y0;
    while y < y1
        invariant
            step > 0,
            cell_fits(pitch as int, y0 as int, y1 as int, x0 as int, x1 as int, step as int) == cell_fits(
                pitch as int,
                y as int,
                y1 as int,
                x0 as int,
                x1 as int,
                step as int,
            ),
        decreases gap(y as int, y1 as int),
    {
        if !row_fits_check(pitch, y, x0, x1, step) {
            return false;
        }
        if (y as u64) + (step as u64) > 0xffff_ffff {
            return false;
        }
        y = y + step;
    }
    true
}

/// Whether a frame of this geometry can be sampled by `capture_grid` (see `capture_fits`):
/// a non-empty grid of at most `u32::MAX` cells whose sampling arithmetic stays within `u32`.
pub fn frame_fits(pitch: u32, width: u32, height: u32, cols: u32, rows: u32, sample_width: u32) -> (res: bool)
    ensures
        res == capture_fits(pitch as int, width as int, height as int, cols as int, rows as int,
            sample_width as int),
{
    if cols == 0 || rows == 0 {
        return false;
    }
    assert(cols as int * rows as int <= 0xffff_ffff_ffff_ffff) by (nonlinear_arith)
        requires
            cols <= 0xffff_ffffu32,
            rows <= 0xffff_ffffu32,
    ;
    if (cols as u64) * (rows as u64) > 0xffff_ffff {
        return false;
    }
    let step = stride(width, height, cols, rows);
    let mut row: u32 = 0;
    while row < rows
        invariant
            cols >= 1,
            rows >= 1,
            row <= rows,
            step as int == grid_step(width as int, height as int, cols as int, rows as int),
            forall|c: int, r: int|
                0 <= c < cols && 0 <= r < row ==> #[trigger] cell_fits_at(pitch as int, width as int,
                    height as int, cols as int, rows as int, sample_width as int, c, r),
        decreases rows - row,
    {
        let mut col: u32 = 0;
        while col < cols
            invariant
                cols >= 1,
                rows >= 1,
                row < rows,
                col <= cols,
                step as int == grid_step(width as int, height as int, cols as int, rows as int),
                forall|c: int, r: int|
                    0 <= c < cols && 0 <= r < row ==> #[trigger] cell_fits_at(pitch as int, width as int,
                        height as int, cols as int, rows as int, sample_width as int, c, r),
                forall|c: int|
                    0 <= c < col ==> #[trigger] cell_fits_at(pitch as int, width as int, height as int,
                        cols as int, rows as int, sample_width as int, c, row as int),
            decreases cols - col,
        {
            let (x0, x1) = axis_range(width, cols, col, sample_width);
            let (y0, y1) = axis_range(height, rows, row, sample_width);
            if !cell_fits_check(pitch, x0, x1, y0, y1, step) {
                assert(!cell_fits_at(pitch as int, width as int, height as int, cols as int, rows as int,
                    sample_width as int, col as int, row as int));
                return false;
            }
            col = col + 1;
        }
        row = row + 1;
    }
    true
}


pub const SMOOTHING_FRAMES: usize = 10;

/// An LED colour as sent: (red, green, blue).
pub type Led = (u8, u8, u8);

/// Sum of one channel of LED `i` over the first `n` frames; frames too short to have LED `i`
/// add nothing.
pub open spec fn led_sum(h: Seq<Seq<Led>>, i: int, n: int, ch: int) -> nat
    decreases n,
{
    if n <= 0 {
        0
    } else {
        let f = h[n - 1];
        let v: nat = if i < f.len() {
            if ch == 0 { f[i].0 as nat } else if ch == 1 { f[i].1 as nat } else { f[i].2 as nat }
        } else {
            0
        };
        led_sum(h, i, n - 1, ch) + v
    }
}

/// Mean over the stored frames, LED by LED, for the current `lamp_count` LEDs: a stored frame
/// that lacks an LED counts as black for it; all LEDs are black when no frame is stored.
pub open spec fn frame_average(h: Seq<Seq<Led>>, lamp_count: nat) -> Seq<Led> {
    if h.len() == 0 {
        Seq::new(lamp_count, |i: int| (0u8, 0u8, 0u8))
    } else {
        Seq::new(
            lamp_count,
            |i: int|
                (
                    (led_sum(h, i, h.len() as int, 0) / h.len()) as u8,
                    (led_sum(h, i, h.len() as int, 1) / h.len()) as u8,
                    (led_sum(h, i, h.len() as int, 2) / h.len()) as u8,
                ),
        )
    }
}

/// The history after a frame was appended: the newest `SMOOTHING_FRAMES` frames.
pub open spec fn keep_recent(h: Seq<Seq<Led>>) -> Seq<Seq<Led>> {
    if h.len() > SMOOTHING_FRAMES {
        h.drop_first()
    } else {
        h
    }
}

/// The byte contents of a list of frames.
pub open spec fn frames_of(h: Seq<Vec<Led>>) -> Seq<Seq<Led>> {
    h.map_values(|f: Vec<Led>| f@)
}

/// Settings and state of the extractor, as numbers.
pub struct ExtractorView {
    pub cols: u32,
    pub rows: u32,
    pub grid_width: u32,
    pub grid_height: u32,
    pub lamp_count: u32,
    pub sample_width: u32,
    pub light_compression: bool,
    pub reverse: bool,
    pub edge_number: u8,
    pub smoothing: bool,
    pub history: Seq<Seq<Led>>,
}

/// Integer state of the colour extractor: the grid size (0 columns until a frame has chosen
/// it) and the frame size it was chosen for, the LED settings, and the last frames kept for
/// smoothing.
pub struct ExtractorState {
    cols: u32,
    rows: u32,
    grid_width: u32,
    grid_height: u32,
    lamp_count: u32,
    sample_width: u32,
    light_compression: bool,
    reverse: bool,
    edge_number: u8,
    history: VecDeque<Vec<Led>>,
    smoothing: bool,
}

impl View for ExtractorState {
    type V = ExtractorView;

    closed spec fn view(&self) -> ExtractorView {
        ExtractorView {
            cols: self.cols,
            rows: self.rows,
            grid_width: self.grid_width,
            grid_height: self.grid_height,
            lamp_count: self.lamp_count,
            sample_width: self.sample_width,
            light_compression: self.light_compression,
            reverse: self.reverse,
            edge_number: self.edge_number,
            smoothing: self.smoothing,
            history: frames_of(self.history@),
        }
    }
}

/// Well-formed extractor state: at most `SMOOTHING_FRAMES` frames kept, and a chosen grid has
/// at least one row and one column and at most `u32::MAX` cells.
pub open spec fn state_ok(v: ExtractorView) -> bool {
    &&& v.history.len() <= SMOOTHING_FRAMES
    &&& v.cols >= 1 ==> (v.rows >= 1 && v.cols * v.rows <= u32::MAX)
}

impl ExtractorState {
    #[verifier::type_invariant]
    spec fn well_formed(self) -> bool {
        state_ok(self@)
    }

    /// A fresh extractor: no grid chosen yet and no frames kept.
    pub fn new(
        lamps_amount: u32,
        sample_width: u32,
        light_compression: bool,
        smoothing: bool,
        reverse: bool,
        edge_number: u8,
    ) -> (res: ExtractorState)
        ensures
            res@ == (ExtractorView {
                cols: 0,
                rows: 0,
                grid_width: 0,
                grid_height: 0,
                lamp_count: lamps_amount,
                sample_width,
                light_compression,
                reverse,
                edge_number,
                smoothing,
                history: Seq::<Seq<Led>>::empty(),
            }),
            state_ok(res@),
    {
        let res = ExtractorState {
            cols: 0,
            rows: 0,
            grid_width: 0,
            grid_height: 0,
            lamp_count: lamps_amount,
            sample_width,
            light_compression,
            reverse,
            edge_number,
            history: VecDeque::with_capacity(SMOOTHING_FRAMES + 1),
            smoothing,
        };
        assert(frames_of(res.history@) =~= Seq::<Seq<Led>>::empty());
        res
    }

    /// New settings; a different LED count makes the next frame choose the grid again.
    pub fn update_config(
        &mut self,
        lamp_count: u32,
        sample_width: u32,
        light_compression: bool,
        smoothing: bool,
        reverse: bool,
        edge_number: u8,
    )
        ensures
            final(self)@ == (ExtractorView {
                cols: if old(self)@.lamp_count != lamp_count { 0 } else { old(self)@.cols },
                rows: old(self)@.rows,
                grid_width: old(self)@.grid_width,
                grid_height: old(self)@.grid_height,
                lamp_count,
                sample_width,
                light_compression,
                reverse,
                edge_number,
                smoothing,
                history: old(self)@.history,
            }),
    {
        proof {
            use_type_invariant(&*self);
        }
        if self.lamp_count != lamp_count {
            self.lamp_count = lamp_count;
            self.cols = 0;
        }
        self.sample_width = sample_width;
        self.light_compression = light_compression;
        self.smoothing = smoothing;
        self.reverse = reverse;
        self.edge_number = edge_number;
    }

    /// A frame of this size needs the grid to be chosen: none has been chosen yet, or it was
    /// chosen for another resolution.
    pub fn needs_grid(&self, width: u32, height: u32) -> (res: bool)
        ensures
            res == (self@.cols == 0 || self@.grid_width != width || self@.grid_height != height),
    {
        self.cols == 0 || self.grid_width != width || self.grid_height != height
    }

    /// Chooses the grid size for frames of `width` x `height` pixels.
    pub fn set_grid(&mut self, cols: u32, rows: u32, width: u32, height: u32)
        requires
            cols >= 1,
            rows >= 1,
            cols * rows <= u32::MAX,
        ensures
            final(self)@ == (ExtractorView { cols, rows, grid_width: width, grid_height: height, ..old(self)@ }),
    {
        proof {
            use_type_invariant(&*self);
        }
        self.cols = 0;
        self.rows = rows;
        self.cols = cols;
        self.grid_width = width;
        self.grid_height = height;
    }

    /// Number of LEDs to map the edge colours onto.
    pub fn lamp_count(&self) -> (res: u32)
        ensures
            res == self@.lamp_count,
    {
        self.lamp_count
    }

    /// Whether a frame of this geometry can be sampled under the chosen grid.
    pub fn fits_frame(&self, pitch: u32, width: u32, height: u32) -> (res: bool)
        ensures
            res == (self@.cols >= 1 && capture_fits(pitch as int, width as int, height as int, self@.cols as int,
                self@.rows as int, self@.sample_width as int)),
    {
        self.cols >= 1 && frame_fits(pitch, width, height, self.cols, self.rows, self.sample_width)
    }

    /// Edge colours of a BGRA frame under the chosen grid.
    pub fn border_colors(&self, data: &[u8], pitch: u32, width: u32, height: u32) -> (res: Vec<Rgb>)
        requires
            self@.cols >= 1,
            capture_fits(pitch as int, width as int, height as int, self@.cols as int, self@.rows as int,
                self@.sample_width as int),
        ensures
            res@ == border_of(
                captured_grid(data@, pitch as int, width as int, height as int, self@.cols as int,
                    self@.rows as int, self@.sample_width as int),
                self@.cols as int,
                self@.rows as int,
                self@.edge_number,
                self@.reverse,
            ),
    {
        let grid = capture_grid(data, pitch, width, height, self.cols, self.rows, self.sample_width);
        extract_border_colors(grid.as_slice(), self.cols, self.rows, self.edge_number, self.reverse)
    }

    /// Mean of the kept frames (see `frame_average`).
    fn averaged_colors(&self) -> (res: Vec<Led>)
        ensures
            res@ == frame_average(self@.history, self@.lamp_count as nat),
    {
        proof {
            use_type_invariant(self);
        }
        let ghost h = self@.history;
        let frame_count = self.history.len();
        if frame_count == 0 {
            let mut out: Vec<Led> = Vec::new();
            let mut k: u32 = 0;
            while k < self.lamp_count
                invariant
                    k <= self.lamp_count,
                    out@ =~= Seq::new(k as nat, |i: int| (0u8, 0u8, 0u8)),
                decreases self.lamp_count - k,
            {
                out.push((0u8, 0u8, 0u8));
                k = k + 1;
            }
            return out;
        }
        let led_count = self.lamp_count as usize;
        let mut out: Vec<Led> = Vec::new();
        let mut i: usize = 0;
        while i < led_count
            invariant
                h == self@.history,
                h.len() == frame_count,
                1 <= frame_count <= SMOOTHING_FRAMES,
                led_count == self@.lamp_count,
                i <= led_count,
                out@ =~= frame_average(h, self@.lamp_count as nat).take(i as int),
            decreases led_count - i,
        {
            let mut r_sum: u32 = 0;
            let mut g_sum: u32 = 0;
            let mut b_sum: u32 = 0;
            let mut f: usize = 0;
            while f < frame_count
                invariant
                    h == self@.history,
                    h.len() == frame_count,
                    frame_count <= SMOOTHING_FRAMES,
                    f <= frame_count,
                    r_sum == led_sum(h, i as int, f as int, 0),
                    g_sum == led_sum(h, i as int, f as int, 1),
                    b_sum == led_sum(h, i as int, f as int, 2),
                    r_sum <= 255 * f,
                    g_sum <= 255 * f,
                    b_sum <= 255 * f,
                decreases frame_count - f,
            {
                let frame = &self.history[f];
                assert(frame@ == h[f as int]);
                if i < frame.len() {
                    r_sum = r_sum + frame[i].0 as u32;
                    g_sum = g_sum + frame[i].1 as u32;
                    b_sum = b_sum + frame[i].2 as u32;
                }
                f = f + 1;
            }
            let n = frame_count as u32;
            out.push(((r_sum / n) as u8, (g_sum / n) as u8, (b_sum / n) as u8));
            i = i + 1;
        }
        out
    }

    /// Finishes a frame of LED colours: with smoothing on, the frame joins the kept frames
    /// (the oldest leaves beyond `SMOOTHING_FRAMES`) and their mean, one colour per LED of the
    /// current lamp count, is returned; with smoothing
    /// off the frame is returned as it is and nothing is kept.
    pub fn smooth_frame(&mut self, frame: Vec<Led>) -> (res: Vec<Led>)
        ensures
            old(self)@.smoothing ==> final(self)@ == (ExtractorView {
                history: keep_recent(old(self)@.history.push(frame@)),
                ..old(self)@
            }),
            old(self)@.smoothing ==> res@ == frame_average(final(self)@.history, old(self)@.lamp_count as nat),
            !old(self)@.smoothing ==> final(self)@ == old(self)@ && res@ == frame@,
    {
        proof {
            use_type_invariant(&*self);
        }
        if self.smoothing {
            let ghost fv = frame@;
            let ghost before = self.history@;
            let mut hist = VecDeque::new();
            std::mem::swap(&mut hist, &mut self.history);
            hist.push_back(frame);
            if hist.len() > SMOOTHING_FRAMES {
                hist.pop_front();
            }
            proof {
                let kept = keep_recent(frames_of(before).push(fv));
                assert(frames_of(hist@) =~= kept);
            }
            self.history = hist;
            self.averaged_colors()
        } else {
            frame
        }
    }
}

} // verus!

//! Properties of the colour extractor that span its functions.
use vstd::prelude::*;
use crate::extractor::{
    average, border_of, captured_grid, grid_step, cell_range, lemma_cell_bounds, all_black, Tally, bottom_edge, cell_sums, cell_tally, row_tally, sample, frame_average, grid_col, grid_row, keep_recent, led_sum, top_edge, Led, Rgb,
    SMOOTHING_FRAMES,
};

verus! {

/// The edge colours count two per grid row plus one per grid column, and one more per column
/// when the bottom edge is included (four edges).
pub proof fn lemma_border_length(g: Seq<Rgb>, cols: int, rows: int, edge_number: u8, reverse: bool)
    requires
        cols >= 1,
        rows >= 1,
    ensures
        border_of(g, cols, rows, edge_number, reverse).len() == 2 * rows + cols + (if edge_number >= 4 {
            cols
        } else {
            0
        }),
{
    assert(top_edge(g, cols, rows).len() == cols);
    assert(bottom_edge(g, cols, rows).len() == cols);
    assert(grid_col(g, cols, rows, 0).len() == rows);
    assert(grid_col(g, cols, rows, cols - 1).len() == rows);
    assert(grid_row(g, cols, 0).len() == cols);
}

/// After a frame is added, the kept frames are the newest ones, newest last, never more
/// than `SMOOTHING_FRAMES`, and the oldest is only dropped when there are too many.
pub proof fn lemma_recent_frames(h: Seq<Seq<Led>>, f: Seq<Led>)
    requires
        h.len() <= SMOOTHING_FRAMES,
    ensures
        keep_recent(h.push(f)).len() <= SMOOTHING_FRAMES,
        keep_recent(h.push(f)).last() == f,
        keep_recent(h.push(f)) == h.push(f).skip(h.push(f).len() - keep_recent(h.push(f)).len()),
        h.len() < SMOOTHING_FRAMES ==> keep_recent(h.push(f)) == h.push(f),
{
    let hp = h.push(f);
    if hp.len() > SMOOTHING_FRAMES {
        assert(hp.drop_first() =~= hp.skip(1));
    } else {
        assert(hp.skip(0) =~= hp);
    }
}

/// Channel `ch` (0 red, 1 green, 2 blue) of an LED colour.
pub open spec fn channel(v: Led, ch: int) -> nat {
    if ch == 0 {
        v.0 as nat
    } else if ch == 1 {
        v.1 as nat
    } else {
        v.2 as nat
    }
}

proof fn lemma_led_sum_steady(h: Seq<Seq<Led>>, f: Seq<Led>, i: int, n: int, ch: int)
    requires
        0 <= n <= h.len(),
        0 <= i < f.len(),
        forall|k: int| 0 <= k < h.len() ==> #[trigger] h[k] == f,
    ensures
        led_sum(h, i, n, ch) == n * channel(f[i], ch),
    decreases n,
{
    if n > 0 {
        lemma_led_sum_steady(h, f, i, n - 1, ch);
        assert(h[n - 1] == f);
        assert((n - 1) * channel(f[i], ch) + channel(f[i], ch) == n * channel(f[i], ch)) by (nonlinear_arith);
    } else {
        assert(0 * channel(f[i], ch) == 0);
    }
}

/// Smoothing a still picture changes nothing: when every kept frame is the same frame of
/// `lamp_count` LEDs, their mean is that frame.
pub proof fn lemma_steady_frames(h: Seq<Seq<Led>>, f: Seq<Led>, lamp_count: nat)
    requires
        h.len() >= 1,
        f.len() == lamp_count,
        forall|k: int| 0 <= k < h.len() ==> #[trigger] h[k] == f,
    ensures
        frame_average(h, lamp_count) == f,
{
    let n = h.len() as int;
    assert(h[0] == f);
    assert forall|i: int| 0 <= i < f.len() implies #[trigger] frame_average(h, lamp_count)[i] == f[i] by {
        lemma_led_sum_steady(h, f, i, n, 0);
        lemma_led_sum_steady(h, f, i, n, 1);
        lemma_led_sum_steady(h, f, i, n, 2);
        assert forall|v: nat| #![trigger (n * v) / n] (n * v) / n == v by {
            assert((n * v) / n == v) by (nonlinear_arith)
                requires
                    n >= 1,
            ;
        }
        assert((n * channel(f[i], 0)) / n == channel(f[i], 0));
        assert((n * channel(f[i], 1)) / n == channel(f[i], 1));
        assert((n * channel(f[i], 2)) / n == channel(f[i], 2));
    }
    assert(frame_average(h, lamp_count) =~= f);
}

/// A BGRA frame painted in one colour: every pixel holds blue `b`, green `g`, red `r`.
pub open spec fn solid_frame(data: Seq<u8>, r: u8, g: u8, b: u8) -> bool {
    forall|k: int|
        0 <= k < data.len() ==> #[trigger] data[k] == (if k % 4 == 0 {
            b
        } else if k % 4 == 1 {
            g
        } else if k % 4 == 2 {
            r
        } else {
            data[k]
        })
}

proof fn lemma_solid_sample(data: Seq<u8>, pitch: int, x: int, y: int, r: u8, g: u8, b: u8)
    requires
        solid_frame(data, r, g, b),
        pitch % 4 == 0,
        y >= 0,
        pitch >= 0,
    ensures
        sample(data, pitch, x, y).0 == r * sample(data, pitch, x, y).3,
        sample(data, pitch, x, y).1 == g * sample(data, pitch, x, y).3,
        sample(data, pitch, x, y).2 == b * sample(data, pitch, x, y).3,
{
    let off = y * pitch + x * 4;
    if 0 <= off && off + 2 < data.len() {
        let q = pitch / 4;
        assert(pitch == 4 * q);
        assert(y * pitch == 4 * (y * q)) by (nonlinear_arith)
            requires
                pitch == 4 * q,
        ;
        assert(off == 4 * (y * q + x));
        assert(off % 4 == 0);
        assert((off + 1) % 4 == 1);
        assert((off + 2) % 4 == 2);
        assert(data[off] == b);
        assert(data[off + 1] == g);
        assert(data[off + 2] == r);
    }
}

proof fn lemma_solid_row(data: Seq<u8>, pitch: int, y: int, x: int, x1: int, step: int, r: u8, g: u8, b: u8)
    requires
        solid_frame(data, r, g, b),
        pitch % 4 == 0,
        y >= 0,
        pitch >= 0,
    ensures
        row_tally(data, pitch, y, x, x1, step).0 == r * row_tally(data, pitch, y, x, x1, step).3,
        row_tally(data, pitch, y, x, x1, step).1 == g * row_tally(data, pitch, y, x, x1, step).3,
        row_tally(data, pitch, y, x, x1, step).2 == b * row_tally(data, pitch, y, x, x1, step).3,
    decreases crate::extractor::gap(x, x1),
{
    if step > 0 && x < x1 {
        lemma_solid_row(data, pitch, y, x + step, x1, step, r, g, b);
        lemma_solid_sample(data, pitch, x, y, r, g, b);
        let s = sample(data, pitch, x, y);
        let t = row_tally(data, pitch, y, x + step, x1, step);
        assert(r * s.3 + r * t.3 == r * (s.3 + t.3)) by (nonlinear_arith);
        assert(g * s.3 + g * t.3 == g * (s.3 + t.3)) by (nonlinear_arith);
        assert(b * s.3 + b * t.3 == b * (s.3 + t.3)) by (nonlinear_arith);
    } else {
        assert(r * 0 == 0 && g * 0 == 0 && b * 0 == 0);
    }
}

proof fn lemma_solid_cell(data: Seq<u8>, pitch: int, y: int, y1: int, x0: int, x1: int, step: int, r: u8, g: u8, b: u8)
    requires
        solid_frame(data, r, g, b),
        pitch % 4 == 0,
        y >= 0,
        pitch >= 0,
    ensures
        cell_tally(data, pitch, y, y1, x0, x1, step).0 == r * cell_tally(data, pitch, y, y1, x0, x1, step).3,
        cell_tally(data, pitch, y, y1, x0, x1, step).1 == g * cell_tally(data, pitch, y, y1, x0, x1, step).3,
        cell_tally(data, pitch, y, y1, x0, x1, step).2 == b * cell_tally(data, pitch, y, y1, x0, x1, step).3,
    decreases crate::extractor::gap(y, y1),
{
    if step > 0 && y < y1 {
        lemma_solid_cell(data, pitch, y + step, y1, x0, x1, step, r, g, b);
        lemma_solid_row(data, pitch, y, x0, x1, step, r, g, b);
        let s = row_tally(data, pitch, y, x0, x1, step);
        let t = cell_tally(data, pitch, y + step, y1, x0, x1, step);
        assert(r * s.3 + r * t.3 == r * (s.3 + t.3)) by (nonlinear_arith);
        assert(g * s.3 + g * t.3 == g * (s.3 + t.3)) by (nonlinear_arith);
        assert(b * s.3 + b * t.3 == b * (s.3 + t.3)) by (nonlinear_arith);
    } else {
        assert(r * 0 == 0 && g * 0 == 0 && b * 0 == 0);
    }
}

/// A frame painted in one colour gives that colour in every grid cell that samples at least
/// one pixel (rows whose pitch is a multiple of 4, as BGRA rows are); cells that sample no
/// pixel are black.
pub proof fn lemma_solid_frame_cells(
    data: Seq<u8>,
    pitch: int,
    width: int,
    height: int,
    cols: int,
    rows: int,
    sw: int,
    col: int,
    row: int,
    r: u8,
    g: u8,
    b: u8,
)
    requires
        solid_frame(data, r, g, b),
        pitch >= 0,
        pitch % 4 == 0,
        height >= 0,
        rows >= 1,
        0 <= row < rows,
        sw >= 0,
    ensures
        cell_sums(data, pitch, width, height, cols, rows, sw, col, row).3 > 0 ==> average(
            cell_sums(data, pitch, width, height, cols, rows, sw, col, row),
        ) == (Rgb { r, g, b }),
        cell_sums(data, pitch, width, height, cols, rows, sw, col, row).3 == 0 ==> average(
            cell_sums(data, pitch, width, height, cols, rows, sw, col, row),
        ) == (Rgb { r: 0, g: 0, b: 0 }),
{
    let step = crate::extractor::grid_step(width, height, cols, rows);
    let xr = crate::extractor::cell_range(width, cols, col, sw);
    let yr = crate::extractor::cell_range(height, rows, row, sw);
    crate::extractor::lemma_cell_range(height, rows, row, sw);
    lemma_solid_cell(data, pitch, yr.0, yr.1, xr.0, xr.1, step, r, g, b);
    let t = cell_tally(data, pitch, yr.0, yr.1, xr.0, xr.1, step);
    if t.3 > 0 {
        assert((r as int * (t.3 as int)) / (t.3 as int) == r as int) by (nonlinear_arith)
            requires
                t.3 > 0,
        ;
        assert((g as int * (t.3 as int)) / (t.3 as int) == g as int) by (nonlinear_arith)
            requires
                t.3 > 0,
        ;
        assert((b as int * (t.3 as int)) / (t.3 as int) == b as int) by (nonlinear_arith)
            requires
                t.3 > 0,
        ;
    }
}

/// The smoothed output always has one colour per LED of the current lamp count, whatever the
/// lengths of the kept frames; a new lamp count applies from the next frame on.
pub proof fn lemma_average_length(h: Seq<Seq<Led>>, lamp_count: nat)
    ensures
        frame_average(h, lamp_count).len() == lamp_count,
{
}

/// The kept frames after `k` more frames `f` were smoothed, starting from the kept frames `h`.
pub open spec fn history_after(h: Seq<Seq<Led>>, f: Seq<Led>, k: nat) -> Seq<Seq<Led>>
    decreases k,
{
    if k == 0 {
        h
    } else {
        keep_recent(history_after(h, f, (k - 1) as nat).push(f))
    }
}

/// A run of a still picture: starting from kept frames that are all copies of the frame `f`
/// (or none), smoothing `f` again `k >= 1` times keeps only copies of `f`, keeps
/// min(old count + k, `SMOOTHING_FRAMES`) of them, and every call returns exactly `f`.
pub proof fn lemma_steady_run(h: Seq<Seq<Led>>, f: Seq<Led>, lamp_count: nat, k: nat)
    requires
        h.len() <= SMOOTHING_FRAMES,
        forall|j: int| 0 <= j < h.len() ==> #[trigger] h[j] == f,
        f.len() == lamp_count,
    ensures
        forall|j: int| 0 <= j < history_after(h, f, k).len() ==> #[trigger] history_after(h, f, k)[j] == f,
        history_after(h, f, k).len() == if h.len() + k < SMOOTHING_FRAMES {
            h.len() + k
        } else {
            SMOOTHING_FRAMES as nat
        },
        k >= 1 ==> frame_average(history_after(h, f, k), lamp_count) == f,
    decreases k,
{
    if k > 0 {
        lemma_steady_run(h, f, lamp_count, (k - 1) as nat);
        let prev = history_after(h, f, (k - 1) as nat);
        let next = history_after(h, f, k);
        let pushed = prev.push(f);
        assert forall|j: int| 0 <= j < pushed.len() implies #[trigger] pushed[j] == f by {
            if j < prev.len() {
                assert(pushed[j] == prev[j]);
            }
        }
        assert forall|j: int| 0 <= j < next.len() implies #[trigger] next[j] == f by {
            if pushed.len() > SMOOTHING_FRAMES {
                assert(next[j] == pushed[j + 1]);
            } else {
                assert(next[j] == pushed[j]);
            }
        }
        lemma_steady_frames(next, f, lamp_count);
    }
}

/// A colour is dark when all three channels are below 10.
pub open spec fn dark(c: Rgb) -> bool {
    c.r < 10 && c.g < 10 && c.b < 10
}

/// Every cell of grid row `r` is dark.
pub open spec fn row_dark(g: Seq<Rgb>, cols: int, r: int) -> bool {
    forall|c: int| 0 <= c < cols ==> #[trigger] dark(g[r * cols + c])
}

proof fn lemma_all_black_is_row_dark(g: Seq<Rgb>, cols: int, r: int)
    requires
        cols >= 0,
    ensures
        all_black(grid_row(g, cols, r)) <==> row_dark(g, cols, r),
{
    let line = grid_row(g, cols, r);
    if all_black(line) {
        assert forall|c: int| 0 <= c < cols implies #[trigger] dark(g[r * cols + c]) by {
            assert(line[c] == g[r * cols + c]);
        }
    }
    if row_dark(g, cols, r) {
        assert forall|i: int| 0 <= i < line.len() implies (#[trigger] line[i]).r < 10 && line[i].g < 10
            && line[i].b < 10 by {
            assert(dark(g[r * cols + i]));
        }
    }
}

/// Edge colours in LED order, forwards: the left column bottom to top, the top edge left to
/// right, the right column top to bottom, and with four edges the bottom edge right to left.
/// The top edge is row 0 unless every cell of row 0 is dark and there is a row 1; the bottom
/// edge is the last row unless every cell of it is dark and there are more than two rows.
pub proof fn lemma_border_forward(g: Seq<Rgb>, cols: int, rows: int, edge_number: u8)
    requires
        cols >= 1,
        rows >= 1,
    ensures
        forall|k: int| 0 <= k < rows ==> #[trigger] border_of(g, cols, rows, edge_number, false)[k] == g[(rows - 1 - k) * cols],
        !row_dark(g, cols, 0) ==> forall|k: int| 0 <= k < cols ==> #[trigger] border_of(g, cols, rows, edge_number, false)[rows + k] == g[k],
        row_dark(g, cols, 0) && rows > 1 ==> forall|k: int| 0 <= k < cols ==> #[trigger] border_of(g, cols, rows, edge_number, false)[rows + k] == g[cols + k],
        rows == 1 ==> forall|k: int| 0 <= k < cols ==> #[trigger] border_of(g, cols, rows, edge_number, false)[rows + k] == g[k],
        forall|k: int| 0 <= k < rows ==> #[trigger] border_of(g, cols, rows, edge_number, false)[rows + cols + k] == g[k * cols + cols - 1],
        edge_number >= 4 && !(row_dark(g, cols, rows - 1) && rows > 2) ==> forall|k: int| 0 <= k < cols ==>
            #[trigger] border_of(g, cols, rows, edge_number, false)[2 * rows + cols + k] == g[(rows - 1) * cols + cols - 1 - k],
        edge_number >= 4 && row_dark(g, cols, rows - 1) && rows > 2 ==> forall|k: int| 0 <= k < cols ==>
            #[trigger] border_of(g, cols, rows, edge_number, false)[2 * rows + cols + k] == g[(rows - 2) * cols + cols - 1 - k],
{
    lemma_all_black_is_row_dark(g, cols, 0);
    lemma_all_black_is_row_dark(g, cols, rows - 1);
    assert(0 * cols == 0);
    assert(1 * cols == cols);
    lemma_border_length(g, cols, rows, edge_number, false);
}

/// Edge colours in LED order, reversed: the right column bottom to top, the top edge right to
/// left, the left column bottom to top, and with four edges the bottom edge left to right; the
/// top and bottom edges are chosen as in `lemma_border_forward`.
pub proof fn lemma_border_reverse(g: Seq<Rgb>, cols: int, rows: int, edge_number: u8)
    requires
        cols >= 1,
        rows >= 1,
    ensures
        forall|k: int| 0 <= k < rows ==> #[trigger] border_of(g, cols, rows, edge_number, true)[k] == g[(rows - 1 - k) * cols + cols - 1],
        !row_dark(g, cols, 0) ==> forall|k: int| 0 <= k < cols ==> #[trigger] border_of(g, cols, rows, edge_number, true)[rows + k] == g[cols - 1 - k],
        row_dark(g, cols, 0) && rows > 1 ==> forall|k: int| 0 <= k < cols ==> #[trigger] border_of(g, cols, rows, edge_number, true)[rows + k] == g[cols + cols - 1 - k],
        forall|k: int| 0 <= k < rows ==> #[trigger] border_of(g, cols, rows, edge_number, true)[rows + cols + k] == g[(rows - 1 - k) * cols],
        edge_number >= 4 && !(row_dark(g, cols, rows - 1) && rows > 2) ==> forall|k: int| 0 <= k < cols ==>
            #[trigger] border_of(g, cols, rows, edge_number, true)[2 * rows + cols + k] == g[(rows - 1) * cols + k],
        edge_number >= 4 && row_dark(g, cols, rows - 1) && rows > 2 ==> forall|k: int| 0 <= k < cols ==>
            #[trigger] border_of(g, cols, rows, edge_number, true)[2 * rows + cols + k] == g[(rows - 2) * cols + k],
{
    lemma_all_black_is_row_dark(g, cols, 0);
    lemma_all_black_is_row_dark(g, cols, rows - 1);
    assert(0 * cols == 0);
    assert(1 * cols == cols);
    lemma_border_length(g, cols, rows, edge_number, true);
}

/// A cell colour is the floored mean of its sampled pixels: for a tally with at least one
/// pixel (and channel sums of at most 255 per pixel), each channel c satisfies
/// c * count <= sum < (c + 1) * count; a tally without pixels gives black.
pub proof fn lemma_average_is_floored_mean(t: Tally)
    requires
        t.0 <= 255 * t.3,
        t.1 <= 255 * t.3,
        t.2 <= 255 * t.3,
    ensures
        t.3 > 0 ==> average(t).r * t.3 <= t.0 < (average(t).r + 1) * t.3,
        t.3 > 0 ==> average(t).g * t.3 <= t.1 < (average(t).g + 1) * t.3,
        t.3 > 0 ==> average(t).b * t.3 <= t.2 < (average(t).b + 1) * t.3,
        t.3 == 0 ==> average(t).r == 0 && average(t).g == 0 && average(t).b == 0,
{
    if t.3 > 0 {
        let n = t.3 as int;
        let s0 = t.0 as int;
        assert((s0 / n) <= 255 && (s0 / n) * n <= s0 < (s0 / n + 1) * n) by (nonlinear_arith)
            requires
                0 <= s0 <= 255 * n,
                n > 0,
        ;
        let s1 = t.1 as int;
        assert((s1 / n) <= 255 && (s1 / n) * n <= s1 < (s1 / n + 1) * n) by (nonlinear_arith)
            requires
                0 <= s1 <= 255 * n,
                n > 0,
        ;
        let s2 = t.2 as int;
        assert((s2 / n) <= 255 && (s2 / n) * n <= s2 < (s2 / n + 1) * n) by (nonlinear_arith)
            requires
                0 <= s2 <= 255 * n,
                n > 0,
        ;
    }
}

/// Each cell of a captured grid is the floored mean of the pixels sampled in it (black when it
/// samples none): with c the colour of cell (col, row) and (rs, gs, bs, n) its sums,
/// c.r * n <= rs < (c.r + 1) * n, and likewise for green and blue.
pub proof fn lemma_grid_cells_are_means(
    data: Seq<u8>,
    pitch: int,
    width: int,
    height: int,
    cols: int,
    rows: int,
    sw: int,
    col: int,
    row: int,
)
    requires
        cols >= 1,
        rows >= 1,
        0 <= col < cols,
        0 <= row < rows,
    ensures
        ({
            let c = captured_grid(data, pitch, width, height, cols, rows, sw)[row * cols + col];
            let t = cell_sums(data, pitch, width, height, cols, rows, sw, col, row);
            &&& t.3 > 0 ==> c.r * t.3 <= t.0 < (c.r + 1) * t.3
            &&& t.3 > 0 ==> c.g * t.3 <= t.1 < (c.g + 1) * t.3
            &&& t.3 > 0 ==> c.b * t.3 <= t.2 < (c.b + 1) * t.3
            &&& t.3 == 0 ==> c.r == 0 && c.g == 0 && c.b == 0
        }),
{
    let i = row * cols + col;
    vstd::arithmetic::div_mod::lemma_fundamental_div_mod_converse(i, cols, row, col);
    assert(0 <= i < cols * rows) by (nonlinear_arith)
        requires
            i == row * cols + col,
            0 <= col < cols,
            0 <= row < rows,
    ;
    let step = grid_step(width, height, cols, rows);
    let xr = cell_range(width, cols, col, sw);
    let yr = cell_range(height, rows, row, sw);
    lemma_cell_bounds(data, pitch, yr.0, yr.1, xr.0, xr.1, step);
    lemma_average_is_floored_mean(cell_sums(data, pitch, width, height, cols, rows, sw, col, row));
}

/// The sampling stride is the largest of 4, an eighth of the cell width and an eighth of the
/// cell height.
pub proof fn lemma_grid_step_is_max(width: int, height: int, cols: int, rows: int)
    ensures
        grid_step(width, height, cols, rows) >= 4,
        grid_step(width, height, cols, rows) >= (width / cols) / 8,
        grid_step(width, height, cols, rows) >= (height / rows) / 8,
        grid_step(width, height, cols, rows) == 4 || grid_step(width, height, cols, rows) == (width / cols) / 8
            || grid_step(width, height, cols, rows) == (height / rows) / 8,
{
}

/// Cell ranges along an axis of `size` pixels cut into `n` cells of c = size / n pixels:
/// without a sample width cell i is [i * c, (i + 1) * c); with one, the first cell keeps its
/// first min(sw, c) pixels, the last cell (of several) its last min(sw, n * c) pixels up to
/// n * c, and the cells in between are unchanged.
pub proof fn lemma_cell_ranges(size: int, n: int, i: int, sw: int)
    requires
        size >= 0,
        n >= 1,
        0 <= i < n,
        sw >= 0,
    ensures
        ({
            let c = size / n;
            let r = cell_range(size, n, i, sw);
            &&& sw == 0 ==> r == (i * c, (i + 1) * c)
            &&& sw > 0 && i == 0 ==> r == (0int, if sw < c { sw } else { c })
            &&& sw > 0 && i == n - 1 && n > 1 ==> r == (if n * c > sw { n * c - sw } else { 0 }, n * c)
            &&& sw > 0 && 0 < i < n - 1 ==> r == (i * c, (i + 1) * c)
        }),
{
    let c = size / n;
    crate::extractor::lemma_cell_range(size, n, i, sw);
    assert(0 * c == 0);
    assert(1 * c == c);
}

/// Adding a frame adds its colour of each LED to that LED's channel sums (nothing when the
/// frame lacks the LED); with no frames the sums are 0.
pub proof fn lemma_led_sum_push(h: Seq<Seq<Led>>, f: Seq<Led>, i: int, ch: int)
    requires
        0 <= i,
    ensures
        led_sum(h, i, 0, ch) == 0,
        led_sum(h.push(f), i, h.len() + 1int, ch) == led_sum(h, i, h.len() as int, ch) + (if i < f.len() {
            channel(f[i], ch)
        } else {
            0
        }),
{
    lemma_led_sum_prefix(h, f, i, h.len() as int, ch);
    assert(h.push(f)[h.len() as int] == f);
}

proof fn lemma_led_sum_prefix(h: Seq<Seq<Led>>, f: Seq<Led>, i: int, n: int, ch: int)
    requires
        0 <= n <= h.len(),
    ensures
        led_sum(h.push(f), i, n, ch) == led_sum(h, i, n, ch),
    decreases n,
{
    if n > 0 {
        lemma_led_sum_prefix(h, f, i, n - 1, ch);
        assert(h.push(f)[n - 1] == h[n - 1]);
    }
}

proof fn lemma_led_sum_bound(h: Seq<Seq<Led>>, i: int, n: int, ch: int)
    requires
        0 <= n,
    ensures
        led_sum(h, i, n, ch) <= 255 * n,
    decreases n,
{
    if n > 0 {
        lemma_led_sum_bound(h, i, n - 1, ch);
    }
}

/// Each LED of the smoothed output is the floored mean of its channel sums over the kept
/// frames: with n kept frames and sum S of a channel, the output channel v satisfies
/// v * n <= S < (v + 1) * n.
pub proof fn lemma_average_is_floored(h: Seq<Seq<Led>>, lamp_count: nat, i: int)
    requires
        h.len() >= 1,
        0 <= i < lamp_count,
    ensures
        ({
            let n = h.len() as int;
            let v = frame_average(h, lamp_count)[i];
            &&& v.0 * n <= led_sum(h, i, n, 0) < (v.0 + 1) * n
            &&& v.1 * n <= led_sum(h, i, n, 1) < (v.1 + 1) * n
            &&& v.2 * n <= led_sum(h, i, n, 2) < (v.2 + 1) * n
        }),
{
    let n = h.len() as int;
    lemma_led_sum_bound(h, i, n, 0);
    lemma_led_sum_bound(h, i, n, 1);
    lemma_led_sum_bound(h, i, n, 2);
    let s0 = led_sum(h, i, n, 0) as int;
    let s1 = led_sum(h, i, n, 1) as int;
    let s2 = led_sum(h, i, n, 2) as int;
    assert((s0 / n) <= 255 && (s0 / n) * n <= s0 < (s0 / n + 1) * n) by (nonlinear_arith)
        requires
            0 <= s0 <= 255 * n,
            n > 0,
    ;
    assert((s1 / n) <= 255 && (s1 / n) * n <= s1 < (s1 / n + 1) * n) by (nonlinear_arith)
        requires
            0 <= s1 <= 255 * n,
            n > 0,
    ;
    assert((s2 / n) <= 255 && (s2 / n) * n <= s2 < (s2 / n + 1) * n) by (nonlinear_arith)
        requires
            0 <= s2 <= 255 * n,
            n > 0,
    ;
}

} // verus!

//! Applying ARC operation tokens and programs to grids.
//!
//! Every operation is a pure function of the grid and the token; operations
//! that cannot be applied give `None`.

use vstd::prelude::*;
use crate::grid::{ArcGrid, ArcTask, grids_equal, grid_width, valid_cells, rows_view, MAX_GRID_DIM, NUM_COLORS};
use crate::arc_program::{ArcOpCode, ArcOpToken, ArcProgram, op_of_byte};
use crate::arc_spec::{
    make_grid, rotate90_spec, rotate180_spec, rotate270_spec, flip_horizontal_spec,
    flip_vertical_spec, move_spec, fill_spec, copy_spec, gravity_spec, mirror_spec, tile_spec,
    crop_spec, replace_spec, scale_spec, crop_content_spec, op_spec, run_program,
    lemma_make_grid_valid, dist, nonzero,
    pack_start, pack_end, column, color_count, row_count, rows_count, is_most_common_color,
    most_common_color_spec, has_content, is_content_box, content_box, lemma_count_positive,
    lemma_nonzero_bounded, lemma_pack_bounded, lemma_most_common_unique, lemma_content_box_unique,
    lemma_rows_count_zero,
};

verus! {

/// The view of an optional grid.
pub open spec fn opt_view(r: Option<ArcGrid>) -> Option<Seq<Seq<u8>>> {
    match r {
        Some(g) => Some(g@),
        None => None,
    }
}

/// Reads cell `(i, j)`.
pub(crate) fn cell(grid: &ArcGrid, i: usize, j: usize) -> (v: u8)
    requires
        grid.wf(),
        i < grid.height,
        j < grid.width,
    ensures
        v == grid@[i as int][j as int],
        v < NUM_COLORS,
{
    assert(grid@[i as int].len() == grid.width);
    grid.data[i][j]
}

/// Wraps rows known to form a valid grid.
fn finish_grid(data: Vec<Vec<u8>>, width: usize, height: usize) -> (g: ArcGrid)
    requires
        valid_cells(rows_view(data@)),
        data@.len() == height,
        width == grid_width(rows_view(data@)),
    ensures
        g.wf(),
        g@ == rows_view(data@),
{
    ArcGrid { data, width, height }
}

/// Makes rows built to match `make_grid(n, m, f)` into the grid `make_grid(n, m, f)`.
proof fn lemma_rows_match(data: Seq<Vec<u8>>, n: nat, m: nat, f: spec_fn(int, int) -> u8)
    requires
        data.len() == n,
        forall|i: int| 0 <= i < n ==> #[trigger] data[i]@ == make_grid(n, m, f)[i],
    ensures
        rows_view(data) == make_grid(n, m, f),
{
    assert(rows_view(data) =~= make_grid(n, m, f));
}

/// Copies the grid cell by cell.
fn copy_grid(grid: &ArcGrid) -> (r: ArcGrid)
    requires
        grid.wf(),
    ensures
        r.wf(),
        r@ == grid@,
{
    let mut data: Vec<Vec<u8>> = Vec::new();
    let mut i: usize = 0;
    while i < grid.height
        invariant
            grid.wf(),
            0 <= i <= grid.height,
            data@.len() == i,
            forall|k: int| 0 <= k < i ==> #[trigger] data@[k]@ == grid@[k],
        decreases grid.height - i,
    {
        let mut row: Vec<u8> = Vec::new();
        let mut j: usize = 0;
        while j < grid.width
            invariant
                grid.wf(),
                i < grid.height,
                0 <= j <= grid.width,
                row@.len() == j,
                forall|l: int| 0 <= l < j ==> #[trigger] row@[l] == grid@[i as int][l],
            decreases grid.width - j,
        {
            row.push(cell(grid, i, j));
            j += 1;
        }
        assert(row@ =~= grid@[i as int]);
        data.push(row);
        i += 1;
    }
    assert(rows_view(data@) =~= grid@);
    finish_grid(data, grid.width, grid.height)
}

/// The identity operation: a copy of the grid.
pub fn apply_identity(grid: &ArcGrid) -> (r: Option<ArcGrid>)
    requires
        grid.wf(),
    ensures
        r matches Some(o) && o.wf() && o@ == grid@ && o.width == grid.width && o.height == grid.height,
{
    Some(copy_grid(grid))
}

/// Rotates a grid 90 degrees (column `w-1-i` becomes row `i`); `None` for an empty grid.
fn rotate90(grid: &ArcGrid) -> (r: Option<ArcGrid>)
    requires
        grid.wf(),
    ensures
        opt_view(r) == (if grid.width == 0 || grid.height == 0 { None } else { Some(rotate90_spec(grid@)) }),
        r matches Some(o) ==> o.wf(),
{
    if grid.width == 0 || grid.height == 0 {
        return None;
    }
    let h = grid.height;
    let w = grid.width;
    let ghost g = grid@;
    let ghost f = |i: int, j: int| g[j][w - 1 - i];
    assert(rotate90_spec(g) == make_grid(w as nat, h as nat, f));
    let mut data: Vec<Vec<u8>> = Vec::new();
    let mut i: usize = 0;
    while i < w
        invariant
            grid.wf(), g == grid@, h == grid.height, w == grid.width,
            f == (|i: int, j: int| g[j][w - 1 - i]),
            0 <= i <= w,
            data@.len() == i,
            forall|k: int| 0 <= k < i ==> #[trigger] data@[k]@ == make_grid(w as nat, h as nat, f)[k],
        decreases w - i,
    {
        let mut row: Vec<u8> = Vec::new();
        let mut j: usize = 0;
        while j < h
            invariant
                grid.wf(), g == grid@, h == grid.height, w == grid.width,
                f == (|i: int, j: int| g[j][w - 1 - i]),
                i < w,
                0 <= j <= h,
                row@.len() == j,
                forall|l: int| 0 <= l < j ==> #[trigger] row@[l] == f(i as int, l),
            decreases h - j,
        {
            row.push(cell(grid, j, w - 1 - i));
            j += 1;
        }
        assert(row@ =~= make_grid(w as nat, h as nat, f)[i as int]);
        data.push(row);
        i += 1;
    }
    proof {
        lemma_rows_match(data@, w as nat, h as nat, f);
        assert forall|a: int, b: int| 0 <= a < w && 0 <= b < h implies #[trigger] f(a, b) < NUM_COLORS by {
            assert(g[b].len() == w);
        }
        lemma_make_grid_valid(w as nat, h as nat, f);
    }
    Some(finish_grid(data, h, w))
}

/// Rotates a grid 180 degrees.
fn rotate180(grid: &ArcGrid) -> (r: ArcGrid)
    requires
        grid.wf(),
    ensures
        r.wf(),
        r@ == rotate180_spec(grid@),
{
    let h = grid.height;
    let w = grid.width;
    let ghost g = grid@;
    let ghost f = (|i: int, j: int| g[h - 1 - i][w - 1 - j]);
    assert(rotate180_spec(grid@) == make_grid(h as nat, w as nat, f));
    let mut data: Vec<Vec<u8>> = Vec::new();
    let mut i: usize = 0;
    while i < h
        invariant
            grid.wf(), g == grid@, h == grid.height, w == grid.width,
            f == (|i: int, j: int| g[h - 1 - i][w - 1 - j]),
            0 <= i <= h,
            data@.len() == i,
            forall|k: int| 0 <= k < i ==> #[trigger] data@[k]@ == make_grid(h as nat, w as nat, f)[k],
        decreases h - i,
    {
        let mut row: Vec<u8> = Vec::new();
        let mut j: usize = 0;
        while j < w
            invariant
                grid.wf(), g == grid@, h == grid.height, w == grid.width,
                f == (|i: int, j: int| g[h - 1 - i][w - 1 - j]),
                i < h,
                0 <= j <= w,
                row@.len() == j,
                forall|l: int| 0 <= l < j ==> #[trigger] row@[l] == f(i as int, l),
            decreases w - j,
        {
            row.push(cell(grid, h - 1 - i, w - 1 - j));
            j += 1;
        }
        assert(row@ =~= make_grid(h as nat, w as nat, f)[i as int]);
        data.push(row);
        i += 1;
    }
    proof {
        lemma_rows_match(data@, h as nat, w as nat, f);
        assert forall|a: int, b: int| 0 <= a < h && 0 <= b < w implies #[trigger] f(a, b) < NUM_COLORS by {
            assert(g[h - 1 - a].len() == w);
        }
        lemma_make_grid_valid(h as nat, w as nat, f);
    }
    finish_grid(data, w, h)
}

/// Flips a grid left to right.
fn flip_horizontal(grid: &ArcGrid) -> (r: ArcGrid)
    requires
        grid.wf(),
    ensures
        r.wf(),
        r@ == flip_horizontal_spec(grid@),
{
    let h = grid.height;
    let w = grid.width;
    let ghost g = grid@;
    let ghost f = (|i: int, j: int| g[i][w - 1 - j]);
    assert(flip_horizontal_spec(grid@) == make_grid(h as nat, w as nat, f));
    let mut data: Vec<Vec<u8>> = Vec::new();
    let mut i: usize = 0;
    while i < h
        invariant
            grid.wf(), g == grid@, h == grid.height, w == grid.width,
            f == (|i: int, j: int| g[i][w - 1 - j]),
            0 <= i <= h,
            data@.len() == i,
            forall|k: int| 0 <= k < i ==> #[trigger] data@[k]@ == make_grid(h as nat, w as nat, f)[k],
        decreases h - i,
    {
        let mut row: Vec<u8> = Vec::new();
        let mut j: usize = 0;
        while j < w
            invariant
                grid.wf(), g == grid@, h == grid.height, w == grid.width,
                f == (|i: int, j: int| g[i][w - 1 - j]),
                i < h,
                0 <= j <= w,
                row@.len() == j,
                forall|l: int| 0 <= l < j ==> #[trigger] row@[l] == f(i as int, l),
            decreases w - j,
        {
            row.push(cell(grid, i, w - 1 - j));
            j += 1;
        }
        assert(row@ =~= make_grid(h as nat, w as nat, f)[i as int]);
        data.push(row);
        i += 1;
    }
    proof {
        lemma_rows_match(data@, h as nat, w as nat, f);
        assert forall|a: int, b: int| 0 <= a < h && 0 <= b < w implies #[trigger] f(a, b) < NUM_COLORS by {
            assert(g[a].len() == w);
        }
        lemma_make_grid_valid(h as nat, w as nat, f);
    }
    finish_grid(data, w, h)
}

/// Flips a grid top to bottom.
fn flip_vertical(grid: &ArcGrid) -> (r: ArcGrid)
    requires
        grid.wf(),
    ensures
        r.wf(),
        r@ == flip_vertical_spec(grid@),
{
    let h = grid.height;
    let w = grid.width;
    let ghost g = grid@;
    let ghost f = (|i: int, j: int| g[h - 1 - i][j]);
    assert(flip_vertical_spec(grid@) == make_grid(h as nat, w as nat, f));
    let mut data: Vec<Vec<u8>> = Vec::new();
    let mut i: usize = 0;
    while i < h
        invariant
            grid.wf(), g == grid@, h == grid.height, w == grid.width,
            f == (|i: int, j: int| g[h - 1 - i][j]),
            0 <= i <= h,
            data@.len() == i,
            forall|k: int| 0 <= k < i ==> #[trigger] data@[k]@ == make_grid(h as nat, w as nat, f)[k],
        decreases h - i,
    {
        let mut row: Vec<u8> = Vec::new();
        let mut j: usize = 0;
        while j < w
            invariant
                grid.wf(), g == grid@, h == grid.height, w == grid.width,
                f == (|i: int, j: int| g[h - 1 - i][j]),
                i < h,
                0 <= j <= w,
                row@.len() == j,
                forall|l: int| 0 <= l < j ==> #[trigger] row@[l] == f(i as int, l),
            decreases w - j,
        {
            row.push(cell(grid, h - 1 - i, j));
            j += 1;
        }
        assert(row@ =~= make_grid(h as nat, w as nat, f)[i as int]);
        data.push(row);
        i += 1;
    }
    proof {
        lemma_rows_match(data@, h as nat, w as nat, f);
        assert forall|a: int, b: int| 0 <= a < h && 0 <= b < w implies #[trigger] f(a, b) < NUM_COLORS by {
            assert(g[h - 1 - a].len() == w);
        }
        lemma_make_grid_valid(h as nat, w as nat, f);
    }
    finish_grid(data, w, h)
}

/// Moves every non-background pixel `dx` right and `dy` down, dropping those that leave the grid.
fn apply_move_grid(grid: &ArcGrid, dx: u8, dy: u8) -> (r: ArcGrid)
    requires
        grid.wf(),
    ensures
        r.wf(),
        r@ == move_spec(grid@, dx as int, dy as int),
{
    let h = grid.height;
    let w = grid.width;
    let ghost g = grid@;
    let ghost f = (|i: int, j: int| if i >= dy && j >= dx { g[i - dy][j - dx] } else { 0u8 });
    assert(move_spec(grid@, dx as int, dy as int) == make_grid(h as nat, w as nat, f));
    let mut data: Vec<Vec<u8>> = Vec::new();
    let mut i: usize = 0;
    while i < h
        invariant
            grid.wf(), g == grid@, h == grid.height, w == grid.width,
            f == (|i: int, j: int| if i >= dy && j >= dx { g[i - dy][j - dx] } else { 0u8 }),
            0 <= i <= h,
            data@.len() == i,
            forall|k: int| 0 <= k < i ==> #[trigger] data@[k]@ == make_grid(h as nat, w as nat, f)[k],
        decreases h - i,
    {
        let mut row: Vec<u8> = Vec::new();
        let mut j: usize = 0;
        while j < w
            invariant
                grid.wf(), g == grid@, h == grid.height, w == grid.width,
                f == (|i: int, j: int| if i >= dy && j >= dx { g[i - dy][j - dx] } else { 0u8 }),
                i < h,
                0 <= j <= w,
                row@.len() == j,
                forall|l: int| 0 <= l < j ==> #[trigger] row@[l] == f(i as int, l),
            decreases w - j,
        {
            let v = if i >= dy as usize && j >= dx as usize { cell(grid, i - dy as usize, j - dx as usize) } else { 0 };
            row.push(v);
            j += 1;
        }
        assert(row@ =~= make_grid(h as nat, w as nat, f)[i as int]);
        data.push(row);
        i += 1;
    }
    proof {
        lemma_rows_match(data@, h as nat, w as nat, f);
        assert forall|a: int, b: int| 0 <= a < h && 0 <= b < w implies #[trigger] f(a, b) < NUM_COLORS by {
            if a >= dy && b >= dx { assert(g[a - dy].len() == w); }
        }
        lemma_make_grid_valid(h as nat, w as nat, f);
    }
    finish_grid(data, w, h)
}

/// Paints the `fw` by `fh` rectangle at `(x, y)`, clipped to the grid, with `color`.
fn fill_rect(grid: &ArcGrid, color: u8, x: usize, y: usize, fw: usize, fh: usize) -> (r: ArcGrid)
    requires
        grid.wf(),
        color < NUM_COLORS || fw == 0 || fh == 0 || x >= grid.width || y >= grid.height,
    ensures
        r.wf(),
        r@ == fill_spec(grid@, color, x as int, y as int, fw as int, fh as int),
{
    let h = grid.height;
    let w = grid.width;
    let ghost g = grid@;
    let ghost f = (|i: int, j: int| if y <= i < y + fh && x <= j < x + fw { color } else { g[i][j] });
    assert(fill_spec(grid@, color, x as int, y as int, fw as int, fh as int) =~~= make_grid(h as nat, w as nat, f));
    let mut data: Vec<Vec<u8>> = Vec::new();
    let mut i: usize = 0;
    while i < h
        invariant
            grid.wf(), g == grid@, h == grid.height, w == grid.width,
                color < NUM_COLORS || fw == 0 || fh == 0 || x >= w || y >= h,
            f == (|i: int, j: int| if y <= i < y + fh && x <= j < x + fw { color } else { g[i][j] }),
            0 <= i <= h,
            data@.len() == i,
            forall|k: int| 0 <= k < i ==> #[trigger] data@[k]@ == make_grid(h as nat, w as nat, f)[k],
        decreases h - i,
    {
        let mut row: Vec<u8> = Vec::new();
        let mut j: usize = 0;
        while j < w
            invariant
                grid.wf(), g == grid@, h == grid.height, w == grid.width,
                color < NUM_COLORS || fw == 0 || fh == 0 || x >= w || y >= h,
                f == (|i: int, j: int| if y <= i < y + fh && x <= j < x + fw { color } else { g[i][j] }),
                i < h,
                0 <= j <= w,
                row@.len() == j,
                forall|l: int| 0 <= l < j ==> #[trigger] row@[l] == f(i as int, l),
            decreases w - j,
        {
            let v = if y <= i && i - y < fh && x <= j && j - x < fw { color } else { cell(grid, i, j) };
            row.push(v);
            j += 1;
        }
        assert(row@ =~= make_grid(h as nat, w as nat, f)[i as int]);
        data.push(row);
        i += 1;
    }
    proof {
        lemma_rows_match(data@, h as nat, w as nat, f);
        assert forall|a: int, b: int| 0 <= a < h && 0 <= b < w implies #[trigger] f(a, b) < NUM_COLORS by {
            assert(g[a].len() == w);
        }
        lemma_make_grid_valid(h as nat, w as nat, f);
    }
    finish_grid(data, w, h)
}

/// Copies the `cw` by `ch` block at `(sx, sy)` onto the block at `(dx, dy)`.
fn copy_block(grid: &ArcGrid, sx: usize, sy: usize, dx: usize, dy: usize, cw: usize, ch: usize) -> (r: ArcGrid)
    requires
        grid.wf(),
        sx + cw <= grid.width, sy + ch <= grid.height, dx + cw <= grid.width, dy + ch <= grid.height,
    ensures
        r.wf(),
        r@ == copy_spec(grid@, sx as int, sy as int, dx as int, dy as int, cw as int, ch as int),
{
    let h = grid.height;
    let w = grid.width;
    let ghost g = grid@;
    let ghost f = (|i: int, j: int| if dy <= i < dy + ch && dx <= j < dx + cw { g[sy + i - dy][sx + j - dx] } else { g[i][j] });
    assert(copy_spec(grid@, sx as int, sy as int, dx as int, dy as int, cw as int, ch as int) == make_grid(h as nat, w as nat, f));
    let mut data: Vec<Vec<u8>> = Vec::new();
    let mut i: usize = 0;
    while i < h
        invariant
            grid.wf(), g == grid@, h == grid.height, w == grid.width,
                sx + cw <= w, sy + ch <= h, dx + cw <= w, dy + ch <= h,
            f == (|i: int, j: int| if dy <= i < dy + ch && dx <= j < dx + cw { g[sy + i - dy][sx + j - dx] } else { g[i][j] }),
            0 <= i <= h,
            data@.len() == i,
            forall|k: int| 0 <= k < i ==> #[trigger] data@[k]@ == make_grid(h as nat, w as nat, f)[k],
        decreases h - i,
    {
        let mut row: Vec<u8> = Vec::new();
        let mut j: usize = 0;
        while j < w
            invariant
                grid.wf(), g == grid@, h == grid.height, w == grid.width,
                sx + cw <= w, sy + ch <= h, dx + cw <= w, dy + ch <= h,
                f == (|i: int, j: int| if dy <= i < dy + ch && dx <= j < dx + cw { g[sy + i - dy][sx + j - dx] } else { g[i][j] }),
                i < h,
                0 <= j <= w,
                row@.len() == j,
                forall|l: int| 0 <= l < j ==> #[trigger] row@[l] == f(i as int, l),
            decreases w - j,
        {
            let v = if dy <= i && i - dy < ch && dx <= j && j - dx < cw { cell(grid, sy + (i - dy), sx + (j - dx)) } else { cell(grid, i, j) };
            row.push(v);
            j += 1;
        }
        assert(row@ =~= make_grid(h as nat, w as nat, f)[i as int]);
        data.push(row);
        i += 1;
    }
    proof {
        lemma_rows_match(data@, h as nat, w as nat, f);
        assert forall|a: int, b: int| 0 <= a < h && 0 <= b < w implies #[trigger] f(a, b) < NUM_COLORS by {
            assert(g[a].len() == w); if dy <= a < dy + ch && dx <= b < dx + cw { assert(g[sy + a - dy].len() == w); }
        }
        lemma_make_grid_valid(h as nat, w as nat, f);
    }
    finish_grid(data, w, h)
}

/// Each cell takes the value at its mirror point `(|ay - r|, |ax - c|)` when that lies on the grid.
fn mirror_point(grid: &ArcGrid, ax: usize, ay: usize) -> (r: ArcGrid)
    requires
        grid.wf(),
    ensures
        r.wf(),
        r@ == mirror_spec(grid@, ax as int, ay as int),
{
    let h = grid.height;
    let w = grid.width;
    let ghost g = grid@;
    let ghost f = (|r: int, c: int| if dist(ay as int, r) < h && dist(ax as int, c) < w { g[dist(ay as int, r)][dist(ax as int, c)] } else { g[r][c] });
    assert(mirror_spec(grid@, ax as int, ay as int) == make_grid(h as nat, w as nat, f));
    let mut data: Vec<Vec<u8>> = Vec::new();
    let mut i: usize = 0;
    while i < h
        invariant
            grid.wf(), g == grid@, h == grid.height, w == grid.width,
            f == (|r: int, c: int| if dist(ay as int, r) < h && dist(ax as int, c) < w { g[dist(ay as int, r)][dist(ax as int, c)] } else { g[r][c] }),
            0 <= i <= h,
            data@.len() == i,
            forall|k: int| 0 <= k < i ==> #[trigger] data@[k]@ == make_grid(h as nat, w as nat, f)[k],
        decreases h - i,
    {
        let mut row: Vec<u8> = Vec::new();
        let mut j: usize = 0;
        while j < w
            invariant
                grid.wf(), g == grid@, h == grid.height, w == grid.width,
                f == (|r: int, c: int| if dist(ay as int, r) < h && dist(ax as int, c) < w { g[dist(ay as int, r)][dist(ax as int, c)] } else { g[r][c] }),
                i < h,
                0 <= j <= w,
                row@.len() == j,
                forall|l: int| 0 <= l < j ==> #[trigger] row@[l] == f(i as int, l),
            decreases w - j,
        {
            let mr = if ay >= i { ay - i } else { i - ay };
            let mc = if ax >= j { ax - j } else { j - ax };
            let v = if mr < h && mc < w { cell(grid, mr, mc) } else { cell(grid, i, j) };
            row.push(v);
            j += 1;
        }
        assert(row@ =~= make_grid(h as nat, w as nat, f)[i as int]);
        data.push(row);
        i += 1;
    }
    proof {
        lemma_rows_match(data@, h as nat, w as nat, f);
        assert forall|a: int, b: int| 0 <= a < h && 0 <= b < w implies #[trigger] f(a, b) < NUM_COLORS by {
            assert(g[a].len() == w); if dist(ay as int, a) < h { assert(g[dist(ay as int, a)].len() == w); }
        }
        lemma_make_grid_valid(h as nat, w as nat, f);
    }
    finish_grid(data, w, h)
}

/// Recolors every cell of color `src` with `dst`.
fn replace_all(grid: &ArcGrid, src: u8, dst: u8) -> (r: ArcGrid)
    requires
        grid.wf(),
        dst < NUM_COLORS || color_count(grid@, src) == 0,
    ensures
        r.wf(),
        r@ == replace_spec(grid@, src, dst),
{
    let h = grid.height;
    let w = grid.width;
    let ghost g = grid@;
    let ghost f = (|i: int, j: int| if g[i][j] == src { dst } else { g[i][j] });
    assert(replace_spec(grid@, src, dst) =~~= make_grid(h as nat, w as nat, f));
    let mut data: Vec<Vec<u8>> = Vec::new();
    let mut i: usize = 0;
    while i < h
        invariant
            grid.wf(), g == grid@, h == grid.height, w == grid.width,
                dst < NUM_COLORS || color_count(g, src) == 0,
            f == (|i: int, j: int| if g[i][j] == src { dst } else { g[i][j] }),
            0 <= i <= h,
            data@.len() == i,
            forall|k: int| 0 <= k < i ==> #[trigger] data@[k]@ == make_grid(h as nat, w as nat, f)[k],
        decreases h - i,
    {
        let mut row: Vec<u8> = Vec::new();
        let mut j: usize = 0;
        while j < w
            invariant
                grid.wf(), g == grid@, h == grid.height, w == grid.width,
                dst < NUM_COLORS || color_count(g, src) == 0,
                f == (|i: int, j: int| if g[i][j] == src { dst } else { g[i][j] }),
                i < h,
                0 <= j <= w,
                row@.len() == j,
                forall|l: int| 0 <= l < j ==> #[trigger] row@[l] == f(i as int, l),
            decreases w - j,
        {
            let c = cell(grid, i, j);
            let v = if c == src { dst } else { c };
            row.push(v);
            j += 1;
        }
        assert(row@ =~= make_grid(h as nat, w as nat, f)[i as int]);
        data.push(row);
        i += 1;
    }
    proof {
        lemma_rows_match(data@, h as nat, w as nat, f);
        assert forall|a: int, b: int| 0 <= a < h && 0 <= b < w implies #[trigger] f(a, b) < NUM_COLORS by {
            assert(g[a].len() == w);
            if g[a][b] == src && dst >= NUM_COLORS {
                lemma_count_positive(g, a, b);
            }
        }
        lemma_make_grid_valid(h as nat, w as nat, f);
    }
    finish_grid(data, w, h)
}

/// Rotates a non-empty grid 270 degrees (column `i` read bottom to top becomes row `i`).
fn rotate270_nonempty(grid: &ArcGrid) -> (r: ArcGrid)
    requires
        grid.wf(),
        grid.width > 0, grid.height > 0,
    ensures
        r.wf(),
        r@ == rotate270_spec(grid@),
{
    let h = grid.height;
    let w = grid.width;

    let ghost g = grid@;
    let ghost f = (|i: int, j: int| g[h - 1 - j][i]);
    assert(rotate270_spec(grid@) =~~= make_grid(w as nat, h as nat, f));
    let mut data: Vec<Vec<u8>> = Vec::new();
    let mut i: usize = 0;
    while i < w
        invariant
            grid.wf(), g == grid@, h == grid.height, w == grid.width,
                w > 0, h > 0,
            f == (|i: int, j: int| g[h - 1 - j][i]),
            0 <= i <= w,
            data@.len() == i,
            forall|k: int| 0 <= k < i ==> #[trigger] data@[k]@ == make_grid(w as nat, h as nat, f)[k],
        decreases w - i,
    {
        let mut row: Vec<u8> = Vec::new();
        let mut j: usize = 0;
        while j < h
            invariant
                grid.wf(), g == grid@, h == grid.height, w == grid.width,
                w > 0, h > 0,
                f == (|i: int, j: int| g[h - 1 - j][i]),
                i < w,
                0 <= j <= h,
                row@.len() == j,
                forall|l: int| 0 <= l < j ==> #[trigger] row@[l] == f(i as int, l),
            decreases h - j,
        {
            row.push(cell(grid, h - 1 - j, i));
            j += 1;
        }
        assert(row@ =~= make_grid(w as nat, h as nat, f)[i as int]);
        data.push(row);
        i += 1;
    }
    proof {
        lemma_rows_match(data@, w as nat, h as nat, f);
        assert forall|a: int, b: int| 0 <= a < w && 0 <= b < h implies #[trigger] f(a, b) < NUM_COLORS by {
            assert(g[h - 1 - b].len() == w);
        }
        lemma_make_grid_valid(w as nat, h as nat, f);
    }
    finish_grid(data, h, w)
}

/// The `cw` by `ch` block at `(x, y)`.
fn crop_block(grid: &ArcGrid, x: usize, y: usize, cw: usize, ch: usize) -> (r: ArcGrid)
    requires
        grid.wf(),
        x + cw <= grid.width, y + ch <= grid.height, cw > 0, ch > 0,
    ensures
        r.wf(),
        r@ == crop_spec(grid@, x as int, y as int, cw as int, ch as int),
{
    let h = grid.height;
    let w = grid.width;

    let ghost g = grid@;
    let ghost f = (|i: int, j: int| g[y + i][x + j]);
    assert(crop_spec(grid@, x as int, y as int, cw as int, ch as int) =~~= make_grid(ch as nat, cw as nat, f));
    let mut data: Vec<Vec<u8>> = Vec::new();
    let mut i: usize = 0;
    while i < ch
        invariant
            grid.wf(), g == grid@, h == grid.height, w == grid.width,
                x + cw <= w, y + ch <= h, cw > 0, ch > 0,
            f == (|i: int, j: int| g[y + i][x + j]),
            0 <= i <= ch,
            data@.len() == i,
            forall|k: int| 0 <= k < i ==> #[trigger] data@[k]@ == make_grid(ch as nat, cw as nat, f)[k],
        decreases ch - i,
    {
        let mut row: Vec<u8> = Vec::new();
        let mut j: usize = 0;
        while j < cw
            invariant
                grid.wf(), g == grid@, h == grid.height, w == grid.width,
                x + cw <= w, y + ch <= h, cw > 0, ch > 0,
                f == (|i: int, j: int| g[y + i][x + j]),
                i < ch,
                0 <= j <= cw,
                row@.len() == j,
                forall|l: int| 0 <= l < j ==> #[trigger] row@[l] == f(i as int, l),
            decreases cw - j,
        {
            row.push(cell(grid, y + i, x + j));
            j += 1;
        }
        assert(row@ =~= make_grid(ch as nat, cw as nat, f)[i as int]);
        data.push(row);
        i += 1;
    }
    proof {
        lemma_rows_match(data@, ch as nat, cw as nat, f);
        assert forall|a: int, b: int| 0 <= a < ch && 0 <= b < cw implies #[trigger] f(a, b) < NUM_COLORS by {
            assert(g[y + a].len() == w);
        }
        lemma_make_grid_valid(ch as nat, cw as nat, f);
    }
    finish_grid(data, cw, ch)
}

/// `n` copies side by side and `m` copies top to bottom.
fn tile_grid(grid: &ArcGrid, n: usize, m: usize) -> (r: ArcGrid)
    requires
        grid.wf(),
        grid.width > 0, grid.height > 0, n > 0, m > 0, grid.height * m <= MAX_GRID_DIM, grid.width * n <= MAX_GRID_DIM,
    ensures
        r.wf(),
        r@ == tile_spec(grid@, n as int, m as int),
{
    let h = grid.height;
    let w = grid.width;
    let nh = h * m;
    let nw = w * n;
    assert(nh > 0) by (nonlinear_arith) requires h > 0, m > 0, nh == h * m;
    let ghost g = grid@;
    let ghost f = (|i: int, j: int| g[i % (h as int)][j % (w as int)]);
    assert(tile_spec(grid@, n as int, m as int) =~~= make_grid(nh as nat, nw as nat, f));
    let mut data: Vec<Vec<u8>> = Vec::new();
    let mut i: usize = 0;
    while i < nh
        invariant
            grid.wf(), g == grid@, h == grid.height, w == grid.width,
                w > 0, h > 0, nh == h * m, nw == w * n, nh <= MAX_GRID_DIM, nw <= MAX_GRID_DIM,
            f == (|i: int, j: int| g[i % (h as int)][j % (w as int)]),
            0 <= i <= nh,
            data@.len() == i,
            forall|k: int| 0 <= k < i ==> #[trigger] data@[k]@ == make_grid(nh as nat, nw as nat, f)[k],
        decreases nh - i,
    {
        let mut row: Vec<u8> = Vec::new();
        let mut j: usize = 0;
        while j < nw
            invariant
                grid.wf(), g == grid@, h == grid.height, w == grid.width,
                w > 0, h > 0, nh == h * m, nw == w * n, nh <= MAX_GRID_DIM, nw <= MAX_GRID_DIM,
                f == (|i: int, j: int| g[i % (h as int)][j % (w as int)]),
                i < nh,
                0 <= j <= nw,
                row@.len() == j,
                forall|l: int| 0 <= l < j ==> #[trigger] row@[l] == f(i as int, l),
            decreases nw - j,
        {
            assert(i % h < h && j % w < w) by (nonlinear_arith) requires h > 0, w > 0;
            row.push(cell(grid, i % h, j % w));
            j += 1;
        }
        assert(row@ =~= make_grid(nh as nat, nw as nat, f)[i as int]);
        data.push(row);
        i += 1;
    }
    proof {
        lemma_rows_match(data@, nh as nat, nw as nat, f);
        assert forall|a: int, b: int| 0 <= a < nh && 0 <= b < nw implies #[trigger] f(a, b) < NUM_COLORS by {
            assert(0 <= a % (h as int) < h && 0 <= b % (w as int) < w) by (nonlinear_arith) requires h > 0, w > 0;
            assert(g[a % (h as int)].len() == w);
        }
        lemma_make_grid_valid(nh as nat, nw as nat, f);
    }
    finish_grid(data, nw, nh)
}

/// Every cell blown up into an `k` by `k` block.
fn scale_grid(grid: &ArcGrid, k: usize) -> (r: ArcGrid)
    requires
        grid.wf(),
        grid.width > 0, grid.height > 0, k > 0, grid.height * k <= MAX_GRID_DIM, grid.width * k <= MAX_GRID_DIM,
    ensures
        r.wf(),
        r@ == scale_spec(grid@, k as int),
{
    let h = grid.height;
    let w = grid.width;
    let nh = h * k;
    let nw = w * k;
    assert(nh > 0) by (nonlinear_arith) requires h > 0, k > 0, nh == h * k;
    let ghost g = grid@;
    let ghost f = (|i: int, j: int| g[i / (k as int)][j / (k as int)]);
    assert(scale_spec(grid@, k as int) =~~= make_grid(nh as nat, nw as nat, f));
    let mut data: Vec<Vec<u8>> = Vec::new();
    let mut i: usize = 0;
    while i < nh
        invariant
            grid.wf(), g == grid@, h == grid.height, w == grid.width,
                w > 0, h > 0, k > 0, nh == h * k, nw == w * k, nh <= MAX_GRID_DIM, nw <= MAX_GRID_DIM,
            f == (|i: int, j: int| g[i / (k as int)][j / (k as int)]),
            0 <= i <= nh,
            data@.len() == i,
            forall|k: int| 0 <= k < i ==> #[trigger] data@[k]@ == make_grid(nh as nat, nw as nat, f)[k],
        decreases nh - i,
    {
        let mut row: Vec<u8> = Vec::new();
        let mut j: usize = 0;
        while j < nw
            invariant
                grid.wf(), g == grid@, h == grid.height, w == grid.width,
                w > 0, h > 0, k > 0, nh == h * k, nw == w * k, nh <= MAX_GRID_DIM, nw <= MAX_GRID_DIM,
                f == (|i: int, j: int| g[i / (k as int)][j / (k as int)]),
                i < nh,
                0 <= j <= nw,
                row@.len() == j,
                forall|l: int| 0 <= l < j ==> #[trigger] row@[l] == f(i as int, l),
            decreases nw - j,
        {
            assert(i / k < h && j / k < w) by (nonlinear_arith) requires k > 0, i < h * k, j < w * k;
            row.push(cell(grid, i / k, j / k));
            j += 1;
        }
        assert(row@ =~= make_grid(nh as nat, nw as nat, f)[i as int]);
        data.push(row);
        i += 1;
    }
    proof {
        lemma_rows_match(data@, nh as nat, nw as nat, f);
        assert forall|a: int, b: int| 0 <= a < nh && 0 <= b < nw implies #[trigger] f(a, b) < NUM_COLORS by {
            assert(0 <= a / (k as int) < h && 0 <= b / (k as int) < w) by (nonlinear_arith) requires k > 0, 0 <= a < h * k, 0 <= b < w * k;
            assert(g[a / (k as int)].len() == w);
        }
        lemma_make_grid_valid(nh as nat, nw as nat, f);
    }
    finish_grid(data, nw, nh)
}

/// The non-zero cells of a line, in order.
fn nonzero_cells(line: &Vec<u8>) -> (r: Vec<u8>)
    ensures
        r@ == nonzero(line@),
{
    let mut out: Vec<u8> = Vec::new();
    let mut k: usize = 0;
    while k < line.len()
        invariant
            0 <= k <= line@.len(),
            out@ == nonzero(line@.subrange(0, k as int)),
        decreases line@.len() - k,
    {
        let ghost pre = line@.subrange(0, k as int);
        let ghost post = line@.subrange(0, k + 1);
        assert(post.drop_last() =~= pre);
        if line[k] != 0 {
            out.push(line[k]);
        }
        k += 1;
    }
    assert(line@.subrange(0, line@.len() as int) =~= line@);
    out
}

/// A line with its non-zero cells packed at the end (`at_end`) or the start,
/// keeping their order, and zeros elsewhere.
fn pack_line(line: &Vec<u8>, at_end: bool) -> (r: Vec<u8>)
    requires
        forall|k: int| 0 <= k < line@.len() ==> #[trigger] line@[k] < NUM_COLORS,
    ensures
        r@ == (if at_end { pack_end(line@) } else { pack_start(line@) }),
{
    let nz = nonzero_cells(line);
    proof { lemma_nonzero_bounded(line@); }
    let zeros = line.len() - nz.len();
    let ghost z = Seq::new(zeros as nat, |k: int| 0u8);
    let mut out: Vec<u8> = Vec::new();
    if !at_end {
        let mut k: usize = 0;
        while k < nz.len()
            invariant
                0 <= k <= nz@.len(),
                out@ == nz@.subrange(0, k as int),
            decreases nz@.len() - k,
        {
            out.push(nz[k]);
            assert(out@ =~= nz@.subrange(0, k + 1));
            k += 1;
        }
        let mut k: usize = 0;
        while k < zeros
            invariant
                0 <= k <= zeros,
                z == Seq::new(zeros as nat, |k: int| 0u8),
                out@ == nz@ + z.subrange(0, k as int),
            decreases zeros - k,
        {
            out.push(0);
            assert(out@ =~= nz@ + z.subrange(0, k + 1));
            k += 1;
        }
        assert(out@ =~= pack_start(line@));
    } else {
        let mut k: usize = 0;
        while k < zeros
            invariant
                0 <= k <= zeros,
                z == Seq::new(zeros as nat, |k: int| 0u8),
                out@ == z.subrange(0, k as int),
            decreases zeros - k,
        {
            out.push(0);
            assert(out@ =~= z.subrange(0, k + 1));
            k += 1;
        }
        let mut k: usize = 0;
        while k < nz.len()
            invariant
                0 <= k <= nz@.len(),
                z == Seq::new(zeros as nat, |k: int| 0u8),
                out@ == z + nz@.subrange(0, k as int),
            decreases nz@.len() - k,
        {
            out.push(nz[k]);
            assert(out@ =~= z + nz@.subrange(0, k + 1));
            k += 1;
        }
        assert(out@ =~= pack_end(line@));
    }
    out
}

/// Column `c` of the grid, top to bottom.
fn column_cells(grid: &ArcGrid, c: usize) -> (r: Vec<u8>)
    requires
        grid.wf(),
        c < grid.width,
    ensures
        r@ == column(grid@, c as int),
        forall|k: int| 0 <= k < r@.len() ==> #[trigger] r@[k] < NUM_COLORS,
{
    let mut out: Vec<u8> = Vec::new();
    let mut r: usize = 0;
    while r < grid.height
        invariant
            grid.wf(),
            c < grid.width,
            0 <= r <= grid.height,
            out@.len() == r,
            forall|k: int| 0 <= k < r ==> #[trigger] out@[k] == grid@[k][c as int],
            forall|k: int| 0 <= k < r ==> #[trigger] out@[k] < NUM_COLORS,
        decreases grid.height - r,
    {
        out.push(cell(grid, r, c));
        r += 1;
    }
    assert(out@ =~= column(grid@, c as int));
    out
}

/// Gravity along rows: pixels of each row fall to its start (left) or end (right).
fn gravity_rows(grid: &ArcGrid, at_end: bool) -> (r: ArcGrid)
    requires
        grid.wf(),
    ensures
        r.wf(),
        r@ == gravity_spec(grid@, if at_end { 3u8 } else { 2u8 }),
{
    let h = grid.height;
    let w = grid.width;
    let ghost g = grid@;
    let ghost f = |i: int, j: int| if at_end { pack_end(g[i])[j] } else { pack_start(g[i])[j] };
    assert(gravity_spec(g, if at_end { 3u8 } else { 2u8 }) =~~= make_grid(h as nat, w as nat, f));
    let mut data: Vec<Vec<u8>> = Vec::new();
    let mut i: usize = 0;
    while i < h
        invariant
            grid.wf(), g == grid@, h == grid.height, w == grid.width,
            f == (|i: int, j: int| if at_end { pack_end(g[i])[j] } else { pack_start(g[i])[j] }),
            0 <= i <= h,
            data@.len() == i,
            forall|k: int| 0 <= k < i ==> #[trigger] data@[k]@ == make_grid(h as nat, w as nat, f)[k],
        decreases h - i,
    {
        assert(g[i as int].len() == w);
        assert forall|k: int| 0 <= k < grid.data@[i as int]@.len() implies #[trigger] grid.data@[i as int]@[k] < NUM_COLORS by {
            assert(grid.data@[i as int]@[k] == g[i as int][k]);
        }
        let row = pack_line(&grid.data[i], at_end);
        proof { lemma_pack_bounded(g[i as int]); }
        assert(row@ =~= make_grid(h as nat, w as nat, f)[i as int]);
        data.push(row);
        i += 1;
    }
    proof {
        lemma_rows_match(data@, h as nat, w as nat, f);
        assert forall|a: int, b: int| 0 <= a < h && 0 <= b < w implies #[trigger] f(a, b) < NUM_COLORS by {
            assert(g[a].len() == w);
            lemma_pack_bounded(g[a]);
        }
        lemma_make_grid_valid(h as nat, w as nat, f);
    }
    finish_grid(data, w, h)
}

/// Gravity along columns: pixels of each column fall to its top (up) or bottom (down).
fn gravity_columns(grid: &ArcGrid, at_end: bool) -> (r: ArcGrid)
    requires
        grid.wf(),
    ensures
        r.wf(),
        r@ == gravity_spec(grid@, if at_end { 0u8 } else { 1u8 }),
{
    let h = grid.height;
    let w = grid.width;
    let ghost g = grid@;
    let ghost f = |i: int, j: int| if at_end { pack_end(column(g, j))[i] } else { pack_start(column(g, j))[i] };
    assert(gravity_spec(g, if at_end { 0u8 } else { 1u8 }) =~~= make_grid(h as nat, w as nat, f));
    let mut cols: Vec<Vec<u8>> = Vec::new();
    let mut c: usize = 0;
    while c < w
        invariant
            grid.wf(), g == grid@, h == grid.height, w == grid.width,
            0 <= c <= w,
            cols@.len() == c,
            forall|k: int| 0 <= k < c ==> #[trigger] cols@[k]@ == (if at_end { pack_end(column(g, k)) } else { pack_start(column(g, k)) }),
        decreases w - c,
    {
        let col = column_cells(grid, c);
        let packed = pack_line(&col, at_end);
        cols.push(packed);
        c += 1;
    }
    let mut data: Vec<Vec<u8>> = Vec::new();
    let mut i: usize = 0;
    while i < h
        invariant
            grid.wf(), g == grid@, h == grid.height, w == grid.width,
            f == (|i: int, j: int| if at_end { pack_end(column(g, j))[i] } else { pack_start(column(g, j))[i] }),
            cols@.len() == w,
            forall|k: int| 0 <= k < w ==> #[trigger] cols@[k]@ == (if at_end { pack_end(column(g, k)) } else { pack_start(column(g, k)) }),
            0 <= i <= h,
            data@.len() == i,
            forall|k: int| 0 <= k < i ==> #[trigger] data@[k]@ == make_grid(h as nat, w as nat, f)[k],
        decreases h - i,
    {
        let mut row: Vec<u8> = Vec::new();
        let mut j: usize = 0;
        while j < w
            invariant
                grid.wf(), g == grid@, h == grid.height, w == grid.width,
                f == (|i: int, j: int| if at_end { pack_end(column(g, j))[i] } else { pack_start(column(g, j))[i] }),
                cols@.len() == w,
                forall|k: int| 0 <= k < w ==> #[trigger] cols@[k]@ == (if at_end { pack_end(column(g, k)) } else { pack_start(column(g, k)) }),
                i < h,
                0 <= j <= w,
                row@.len() == j,
                forall|l: int| 0 <= l < j ==> #[trigger] row@[l] == f(i as int, l),
            decreases w - j,
        {
            proof {
                assert forall|k: int| 0 <= k < column(g, j as int).len() implies #[trigger] column(g, j as int)[k] < NUM_COLORS by {
                    assert(g[k].len() == w);
                }
                lemma_pack_bounded(column(g, j as int));
            }
            row.push(cols[j][i]);
            j += 1;
        }
        assert(row@ =~= make_grid(h as nat, w as nat, f)[i as int]);
        data.push(row);
        i += 1;
    }
    proof {
        lemma_rows_match(data@, h as nat, w as nat, f);
        assert forall|a: int, b: int| 0 <= a < h && 0 <= b < w implies #[trigger] f(a, b) < NUM_COLORS by {
            assert forall|k: int| 0 <= k < column(g, b).len() implies #[trigger] column(g, b)[k] < NUM_COLORS by {
                assert(g[k].len() == w);
            }
            lemma_pack_bounded(column(g, b));
        }
        lemma_make_grid_valid(h as nat, w as nat, f);
    }
    finish_grid(data, w, h)
}

/// The number of cells of each color 0-9.
pub fn color_counts(grid: &ArcGrid) -> (counts: Vec<usize>)
    requires
        grid.wf(),
    ensures
        counts@.len() == NUM_COLORS,
        forall|c: u8| c < NUM_COLORS ==> #[trigger] counts@[c as int] == color_count(grid@, c),
        forall|c: int| 0 <= c < NUM_COLORS ==> #[trigger] counts@[c] <= 900,
{
    let ghost g = grid@;
    let mut counts: Vec<usize> = vec![0usize; 10];
    let mut i: usize = 0;
    while i < grid.height
        invariant
            grid.wf(), g == grid@,
            0 <= i <= grid.height,
            counts@.len() == NUM_COLORS,
            forall|c: u8| c < NUM_COLORS ==> #[trigger] counts@[c as int] == rows_count(g, i as int, c),
            forall|c: int| 0 <= c < NUM_COLORS ==> #[trigger] counts@[c] <= i * 30,
        decreases grid.height - i,
    {
        let mut j: usize = 0;
        let ghost row = g[i as int];
        assert(row.len() == grid.width);
        while j < grid.width
            invariant
                grid.wf(), g == grid@, row == g[i as int],
                i < grid.height,
                0 <= j <= grid.width,
                counts@.len() == NUM_COLORS,
                forall|c: u8| c < NUM_COLORS ==> #[trigger] counts@[c as int] == rows_count(g, i as int, c) + row_count(row.subrange(0, j as int), c),
                forall|c: int| 0 <= c < NUM_COLORS ==> #[trigger] counts@[c] <= i * 30 + j,
            decreases grid.width - j,
        {
            let v = cell(grid, i, j);
            let ghost pre = row.subrange(0, j as int);
            let ghost post = row.subrange(0, j + 1);
            assert(post.drop_last() =~= pre);
            assert(post.last() == v);
            let old_count = counts[v as usize];
            counts.set(v as usize, old_count + 1);
            assert forall|c: u8| c < NUM_COLORS implies #[trigger] counts@[c as int] == rows_count(g, i as int, c) + row_count(post, c) by {
                assert(row_count(post, c) == row_count(pre, c) + (if v == c { 1nat } else { 0nat }));
            }
            j += 1;
        }
        assert(row.subrange(0, grid.width as int) =~= row);
        assert forall|c: u8| c < NUM_COLORS implies #[trigger] counts@[c as int] == rows_count(g, i + 1, c) by {
            assert(rows_count(g, i + 1, c) == rows_count(g, i as int, c) + row_count(g[i as int], c));
        }
        i += 1;
    }
    counts
}

/// The most common color of a grid, the smallest one on a tie; 0 for an empty grid.
pub fn most_common_color(grid: &ArcGrid) -> (c: u8)
    requires
        grid.wf(),
    ensures
        is_most_common_color(grid@, c),
        c == most_common_color_spec(grid@),
{
    let counts = color_counts(grid);
    let mut max_color: usize = 0;
    let mut max_count: usize = 0;
    let mut color: usize = 0;
    while color < 10
        invariant
            counts@.len() == NUM_COLORS,
            0 <= color <= 10,
            color == 0 ==> max_color == 0 && max_count == 0,
            color > 0 ==> max_color < color && max_count == counts@[max_color as int],
            forall|d: int| 0 <= d < color ==> #[trigger] counts@[d] <= max_count,
            forall|d: int| 0 <= d < max_color ==> #[trigger] counts@[d] < max_count,
        decreases 10 - color,
    {
        if counts[color] > max_count {
            max_count = counts[color];
            max_color = color;
        }
        color += 1;
    }
    let c = max_color as u8;
    proof {
        assert forall|d: u8| d < NUM_COLORS implies color_count(grid@, d) <= color_count(grid@, c) by {
            assert(counts@[d as int] == color_count(grid@, d));
            assert(counts@[c as int] == color_count(grid@, c));
        }
        assert forall|d: u8| d < c implies color_count(grid@, d) < color_count(grid@, c) by {
            assert(counts@[d as int] == color_count(grid@, d));
            assert(counts@[c as int] == color_count(grid@, c));
        }
        lemma_most_common_unique(grid@, c);
    }
    c
}

/// Cell `(r, c)` comes before `(i, j)` in row-major order.
spec fn scanned_before(i: int, j: int, r: int, c: int) -> bool {
    r < i || (r == i && c < j)
}

/// Crops the grid to the smallest box holding every cell that differs from
/// its most common color; the grid unchanged when it is empty or has no such cell.
fn crop_content(grid: &ArcGrid) -> (r: ArcGrid)
    requires
        grid.wf(),
    ensures
        r.wf(),
        r@ == crop_content_spec(grid@),
{
    if grid.height == 0 || grid.width == 0 {
        return copy_grid(grid);
    }
    let h = grid.height;
    let w = grid.width;
    let ghost g = grid@;
    let bg = most_common_color(grid);
    let mut min_r: usize = h;
    let mut max_r: usize = 0;
    let mut min_c: usize = w;
    let mut max_c: usize = 0;
    let ghost mut x0: int = 0;
    let ghost mut x1: int = 0;
    let ghost mut y0: int = 0;
    let ghost mut y1: int = 0;
    let mut i: usize = 0;
    while i < h
        invariant
            grid.wf(), g == grid@, h == grid.height, w == grid.width, h > 0, w > 0,
            0 <= i <= h,
            min_r <= h,
            min_r == h ==> max_r == 0 && min_c == w && max_c == 0
                && forall|r: int, c: int| 0 <= r < h && 0 <= c < w && scanned_before(i as int, 0, r, c) ==> #[trigger] g[r][c] == bg,
            min_r < h ==> {
                &&& min_r <= max_r < h && min_c <= max_c < w
                &&& forall|r: int, c: int| 0 <= r < h && 0 <= c < w && scanned_before(i as int, 0, r, c) && #[trigger] g[r][c] != bg
                    ==> min_r <= r <= max_r && min_c <= c <= max_c
                &&& 0 <= x0 < w && g[min_r as int][x0] != bg
                &&& 0 <= x1 < w && g[max_r as int][x1] != bg
                &&& 0 <= y0 < h && g[y0][min_c as int] != bg
                &&& 0 <= y1 < h && g[y1][max_c as int] != bg
            },
        decreases h - i,
    {
        let mut j: usize = 0;
        while j < w
            invariant
                grid.wf(), g == grid@, h == grid.height, w == grid.width, h > 0, w > 0,
                0 <= i < h,
                0 <= j <= w,
                min_r <= h,
                min_r == h ==> max_r == 0 && min_c == w && max_c == 0
                    && forall|r: int, c: int| 0 <= r < h && 0 <= c < w && scanned_before(i as int, j as int, r, c) ==> #[trigger] g[r][c] == bg,
                min_r < h ==> {
                    &&& min_r <= max_r < h && min_c <= max_c < w
                    &&& forall|r: int, c: int| 0 <= r < h && 0 <= c < w && scanned_before(i as int, j as int, r, c) && #[trigger] g[r][c] != bg
                        ==> min_r <= r <= max_r && min_c <= c <= max_c
                    &&& 0 <= x0 < w && g[min_r as int][x0] != bg
                    &&& 0 <= x1 < w && g[max_r as int][x1] != bg
                    &&& 0 <= y0 < h && g[y0][min_c as int] != bg
                    &&& 0 <= y1 < h && g[y1][max_c as int] != bg
                },
            decreases w - j,
        {
            if cell(grid, i, j) != bg {
                if min_r == h {
                    proof { x0 = j as int; x1 = j as int; y0 = i as int; y1 = i as int; }
                    min_r = i;
                    max_r = i;
                    min_c = j;
                    max_c = j;
                } else {
                    if i < min_r {
                        min_r = i;
                        proof { x0 = j as int; }
                    }
                    if i > max_r {
                        max_r = i;
                        proof { x1 = j as int; }
                    }
                    if j < min_c {
                        min_c = j;
                        proof { y0 = i as int; }
                    }
                    if j > max_c {
                        max_c = j;
                        proof { y1 = i as int; }
                    }
                }
            }
            j += 1;
        }
        i += 1;
    }
    if min_r == h {
        proof {
            assert(!has_content(g, bg)) by {
                if has_content(g, bg) {
                    let (r, c) = choose|r: int, c: int| 0 <= r < g.len() && 0 <= c < g[r].len() && #[trigger] g[r][c] != bg;
                    assert(g[r].len() == w);
                }
            }
        }
        return copy_grid(grid);
    }
    proof {
        assert(is_content_box(g, bg, min_r as int, max_r as int, min_c as int, max_c as int)) by {
            assert forall|r: int, c: int| 0 <= r < g.len() && 0 <= c < g[r].len() && #[trigger] g[r][c] != bg
                implies min_r <= r <= max_r && min_c <= c <= max_c by {
                assert(g[r].len() == w);
            }
            assert(g[min_r as int][x0] != bg);
            assert(g[max_r as int][x1] != bg);
            assert(g[y0][min_c as int] != bg);
            assert(g[y1][max_c as int] != bg);
        }
        lemma_content_box_unique(g, min_r as int, max_r as int, min_c as int, max_c as int);
        assert(g[min_r as int].len() == w);
        assert(has_content(g, bg));
    }
    crop_block(grid, min_c, min_r, max_c - min_c + 1, max_r - min_r + 1)
}

/// Whether some cell has color `c`.
fn has_color(grid: &ArcGrid, c: u8) -> (r: bool)
    requires
        grid.wf(),
    ensures
        r == (color_count(grid@, c) > 0),
{
    let ghost g = grid@;
    let mut i: usize = 0;
    while i < grid.height
        invariant
            grid.wf(), g == grid@,
            0 <= i <= grid.height,
            forall|r: int, k: int| 0 <= r < i && 0 <= k < g[r].len() ==> #[trigger] g[r][k] != c,
        decreases grid.height - i,
    {
        let mut j: usize = 0;
        assert(g[i as int].len() == grid.width);
        while j < grid.width
            invariant
                grid.wf(), g == grid@,
                i < grid.height,
                0 <= j <= grid.width,
                forall|r: int, k: int| 0 <= r < i && 0 <= k < g[r].len() ==> #[trigger] g[r][k] != c,
                forall|k: int| 0 <= k < j ==> #[trigger] g[i as int][k] != c,
            decreases grid.width - j,
        {
            if cell(grid, i, j) == c {
                proof { lemma_count_positive(g, i as int, j as int); }
                return true;
            }
            j += 1;
        }
        i += 1;
    }
    proof { lemma_rows_count_zero(g, g.len() as int, c); }
    false
}

/// Applies a single token to a grid; `None` when the operation cannot be
/// applied (unknown op code, parameters out of range, or a result that is no
/// valid grid, such as a fill or a replacement with a value above 9). Never panics.
pub fn apply_arc_op(grid: &ArcGrid, token: &ArcOpToken) -> (r: Option<ArcGrid>)
    requires
        grid.wf(),
    ensures
        opt_view(r) == op_spec(grid@, *token),
        r matches Some(o) ==> o.wf(),
{
    let op = match token.op() {
        Some(op) => op,
        None => return None,
    };
    let h = grid.height;
    let w = grid.width;
    match op {
        ArcOpCode::Identity => apply_identity(grid),
        ArcOpCode::Rotate => {
            let angle = token.param(0);
            if angle == 0 {
                rotate90(grid)
            } else if angle == 1 {
                Some(rotate180(grid))
            } else if angle == 2 {
                if w == 0 || h == 0 { None } else { Some(rotate270_nonempty(grid)) }
            } else {
                None
            }
        },
        ArcOpCode::Flip => {
            let axis = token.param(0);
            if axis == 0 {
                Some(flip_horizontal(grid))
            } else if axis == 1 {
                Some(flip_vertical(grid))
            } else {
                None
            }
        },
        ArcOpCode::Move => Some(apply_move_grid(grid, token.param(0), token.param(1))),
        ArcOpCode::Fill => {
            let x = token.param(1) as usize;
            let y = token.param(2) as usize;
            let color = token.param(0);
            let fw = token.param(3) as usize;
            let fh = token.param(4) as usize;
            if x >= w || y >= h {
                None
            } else if color as usize >= NUM_COLORS && fw > 0 && fh > 0 {
                None
            } else {
                Some(fill_rect(grid, color, x, y, fw, fh))
            }
        },
        ArcOpCode::Copy => {
            let sx = token.param(0) as usize;
            let sy = token.param(1) as usize;
            let dx = token.param(2) as usize;
            let dy = token.param(3) as usize;
            let cw = token.param(4) as usize;
            let ch = token.param(5) as usize;
            if sx + cw > w || sy + ch > h || dx + cw > w || dy + ch > h {
                None
            } else {
                Some(copy_block(grid, sx, sy, dx, dy, cw, ch))
            }
        },
        ArcOpCode::Gravity => {
            let dir = token.param(0);
            if dir == 0 {
                Some(gravity_columns(grid, true))
            } else if dir == 1 {
                Some(gravity_columns(grid, false))
            } else if dir == 2 {
                Some(gravity_rows(grid, false))
            } else if dir == 3 {
                Some(gravity_rows(grid, true))
            } else {
                None
            }
        },
        ArcOpCode::Mirror => Some(mirror_point(grid, token.param(0) as usize, token.param(1) as usize)),
        ArcOpCode::Tile => {
            let n = token.param(0) as usize;
            let m = token.param(1) as usize;
            assert(h <= MAX_GRID_DIM && w <= MAX_GRID_DIM);
            if n == 0 || m == 0 || n > 4 || m > 4 || h == 0 || w == 0 {
                None
            } else {
                assert(h * m <= 120 && w * n <= 120) by (nonlinear_arith)
                    requires h <= 30, w <= 30, n <= 4, m <= 4;
                if h * m > MAX_GRID_DIM || w * n > MAX_GRID_DIM {
                    None
                } else {
                    Some(tile_grid(grid, n, m))
                }
            }
        },
        ArcOpCode::Crop => {
            let x = token.param(0) as usize;
            let y = token.param(1) as usize;
            let cw = token.param(2) as usize;
            let ch = token.param(3) as usize;
            if x + cw > w || y + ch > h || cw == 0 || ch == 0 {
                None
            } else {
                Some(crop_block(grid, x, y, cw, ch))
            }
        },
        ArcOpCode::ReplaceColor => {
            let src = token.param(0);
            let dst = token.param(1);
            if src == dst {
                None
            } else if dst >= 10 && has_color(grid, src) {
                None
            } else {
                Some(replace_all(grid, src, dst))
            }
        },
        ArcOpCode::Scale => {
            let k = token.param(0) as usize;
            assert(h <= MAX_GRID_DIM && w <= MAX_GRID_DIM);
            if k == 0 || k > 3 || h == 0 || w == 0 {
                None
            } else {
                assert(h * k <= 90 && w * k <= 90) by (nonlinear_arith)
                    requires h <= 30, w <= 30, k <= 3;
                if h * k > MAX_GRID_DIM || w * k > MAX_GRID_DIM {
                    None
                } else {
                    Some(scale_grid(grid, k))
                }
            }
        },
        ArcOpCode::CropContent => Some(crop_content(grid)),
    }
}

/// Applies the tokens of a program in order; `None` as soon as one cannot be applied.
pub fn apply_program(grid: &ArcGrid, program: &ArcProgram) -> (r: Option<ArcGrid>)
    requires
        grid.wf(),
    ensures
        opt_view(r) == run_program(grid@, program@),
        r matches Some(o) ==> o.wf(),
{
    let ghost ts = program@;
    let mut current = copy_grid(grid);
    let mut i: usize = 0;
    assert(ts.skip(0) =~= ts);
    while i < program.tokens.len()
        invariant
            ts == program@,
            0 <= i <= ts.len(),
            current.wf(),
            run_program(grid@, ts) == run_program(current@, ts.skip(i as int)),
        decreases ts.len() - i,
    {
        let ghost rest = ts.skip(i as int);
        assert(rest[0] == ts[i as int]);
        assert(rest.drop_first() =~= ts.skip(i + 1));
        let token = &program.tokens[i];
        match apply_arc_op(&current, token) {
            Some(next) => {
                current = next;
            },
            None => {
                return None;
            },
        }
        i += 1;
    }
    assert(ts.skip(ts.len() as int) =~= Seq::<ArcOpToken>::empty());
    Some(current)
}

/// The program maps the input of pair `i` to its expected output.
pub open spec fn solves_pair(task: ArcTask, ts: Seq<ArcOpToken>, i: int) -> bool {
    run_program(task.train_pairs@[i].0@, ts) == Some(task.train_pairs@[i].1@)
}

/// Whether the program maps every training input to its expected output.
pub fn program_solves_train(task: &ArcTask, program: &ArcProgram) -> (r: bool)
    requires
        task.wf(),
    ensures
        r == forall|i: int| 0 <= i < task.train_pairs@.len() ==> #[trigger] solves_pair(*task, program@, i),
{
    let mut i: usize = 0;
    while i < task.train_pairs.len()
        invariant
            task.wf(),
            0 <= i <= task.train_pairs@.len(),
            forall|k: int| 0 <= k < i ==> #[trigger] solves_pair(*task, program@, k),
        decreases task.train_pairs@.len() - i,
    {
        let pair = &task.train_pairs[i];
        assert(pair.0.wf() && pair.1.wf());
        match apply_program(&pair.0, program) {
            Some(output) => {
                if !grids_equal(&output, &pair.1) {
                    assert(!solves_pair(*task, program@, i as int));
                    return false;
                }
            },
            None => {
                assert(!solves_pair(*task, program@, i as int));
                return false;
            },
        }
        i += 1;
    }
    true
}

impl ArcProgram {
    /// Applies the program to a grid.
    pub fn apply_to(&self, grid: &ArcGrid) -> (r: Option<ArcGrid>)
        requires
            grid.wf(),
        ensures
            opt_view(r) == run_program(grid@, self@),
            r matches Some(o) ==> o.wf(),
    {
        apply_program(grid, self)
    }

    /// Whether the program maps every training input of the task to its expected output.
    pub fn solves_train(&self, task: &ArcTask) -> (r: bool)
        requires
            task.wf(),
        ensures
            r == forall|i: int| 0 <= i < task.train_pairs@.len() ==> #[trigger] solves_pair(*task, self@, i),
    {
        program_solves_train(task, self)
    }
}

} // verus!

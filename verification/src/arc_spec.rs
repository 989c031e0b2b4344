//! The meaning of each ARC grid operation, stated over rows of cells.

use vstd::prelude::*;
use crate::grid::{grid_width, valid_cells, MAX_GRID_DIM, NUM_COLORS};
use crate::arc_program::{ArcOpCode, ArcOpToken, op_of_byte};

verus! {

/// The grid with `n` rows of `m` cells whose cell `(i, j)` is `f(i, j)`.
pub open spec fn make_grid(n: nat, m: nat, f: spec_fn(int, int) -> u8) -> Seq<Seq<u8>> {
    Seq::new(n, |i: int| Seq::new(m, |j: int| f(i, j)))
}

/// Rotation by 90 degrees: column `w-1-i` read top to bottom becomes row `i`.
pub open spec fn rotate90_spec(g: Seq<Seq<u8>>) -> Seq<Seq<u8>> {
    let h = g.len() as int;
    let w = grid_width(g) as int;
    make_grid(w as nat, h as nat, |i: int, j: int| g[j][w - 1 - i])
}

/// Rotation by 180 degrees.
pub open spec fn rotate180_spec(g: Seq<Seq<u8>>) -> Seq<Seq<u8>> {
    let h = g.len() as int;
    let w = grid_width(g) as int;
    make_grid(h as nat, w as nat, |i: int, j: int| g[h - 1 - i][w - 1 - j])
}

/// Rotation by 270 degrees: column `i` read bottom to top becomes row `i`.
pub open spec fn rotate270_spec(g: Seq<Seq<u8>>) -> Seq<Seq<u8>> {
    let h = g.len() as int;
    let w = grid_width(g) as int;
    make_grid(w as nat, h as nat, |i: int, j: int| g[h - 1 - j][i])
}

/// Left-right mirror image.
pub open spec fn flip_horizontal_spec(g: Seq<Seq<u8>>) -> Seq<Seq<u8>> {
    let h = g.len() as int;
    let w = grid_width(g) as int;
    make_grid(h as nat, w as nat, |i: int, j: int| g[i][w - 1 - j])
}

/// Top-bottom mirror image.
pub open spec fn flip_vertical_spec(g: Seq<Seq<u8>>) -> Seq<Seq<u8>> {
    let h = g.len() as int;
    let w = grid_width(g) as int;
    make_grid(h as nat, w as nat, |i: int, j: int| g[h - 1 - i][j])
}

/// Every non-background pixel moves `dx` right and `dy` down; pixels that leave
/// the grid are dropped and vacated cells become 0.
pub open spec fn move_spec(g: Seq<Seq<u8>>, dx: int, dy: int) -> Seq<Seq<u8>> {
    let h = g.len() as int;
    let w = grid_width(g) as int;
    make_grid(h as nat, w as nat, |i: int, j: int| if i >= dy && j >= dx { g[i - dy][j - dx] } else { 0u8 })
}

/// The rectangle of `fw` columns and `fh` rows at `(x, y)`, clipped to the grid,
/// painted with `color`.
pub open spec fn fill_spec(g: Seq<Seq<u8>>, color: u8, x: int, y: int, fw: int, fh: int) -> Seq<Seq<u8>> {
    let h = g.len() as int;
    let w = grid_width(g) as int;
    make_grid(h as nat, w as nat, |i: int, j: int|
        if y <= i < y + fh && x <= j < x + fw { color } else { g[i][j] })
}

/// The `cw` by `ch` block at `(sx, sy)` copied onto the block at `(dx, dy)`.
pub open spec fn copy_spec(g: Seq<Seq<u8>>, sx: int, sy: int, dx: int, dy: int, cw: int, ch: int) -> Seq<Seq<u8>> {
    let h = g.len() as int;
    let w = grid_width(g) as int;
    make_grid(h as nat, w as nat, |i: int, j: int|
        if dy <= i < dy + ch && dx <= j < dx + cw { g[sy + i - dy][sx + j - dx] } else { g[i][j] })
}

/// The non-zero cells of `s`, in order.
pub open spec fn nonzero(s: Seq<u8>) -> Seq<u8>
    decreases s.len(),
{
    if s.len() == 0 {
        Seq::empty()
    } else if s.last() != 0 {
        nonzero(s.drop_last()).push(s.last())
    } else {
        nonzero(s.drop_last())
    }
}

/// `s` with its non-zero cells packed at the start, zeros after them.
pub open spec fn pack_start(s: Seq<u8>) -> Seq<u8> {
    nonzero(s) + Seq::new((s.len() - nonzero(s).len()) as nat, |k: int| 0u8)
}

/// `s` with its non-zero cells packed at the end, zeros before them.
pub open spec fn pack_end(s: Seq<u8>) -> Seq<u8> {
    Seq::new((s.len() - nonzero(s).len()) as nat, |k: int| 0u8) + nonzero(s)
}

/// Column `c` of a grid, top to bottom.
pub open spec fn column(g: Seq<Seq<u8>>, c: int) -> Seq<u8> {
    Seq::new(g.len(), |r: int| g[r][c])
}

/// Gravity: pixels fall, keeping their order, down (0), up (1), left (2) or
/// right (3) until they reach the border or another pixel.
pub open spec fn gravity_spec(g: Seq<Seq<u8>>, dir: u8) -> Seq<Seq<u8>> {
    let h = g.len() as int;
    let w = grid_width(g) as int;
    if dir == 0 {
        make_grid(h as nat, w as nat, |i: int, j: int| pack_end(column(g, j))[i])
    } else if dir == 1 {
        make_grid(h as nat, w as nat, |i: int, j: int| pack_start(column(g, j))[i])
    } else if dir == 2 {
        make_grid(h as nat, w as nat, |i: int, j: int| pack_start(g[i])[j])
    } else {
        make_grid(h as nat, w as nat, |i: int, j: int| pack_end(g[i])[j])
    }
}

/// Distance between two integers.
pub open spec fn dist(a: int, b: int) -> int {
    if a >= b { a - b } else { b - a }
}

/// Each cell `(r, c)` takes the value at `(|ay - r|, |ax - c|)` when that
/// cell lies on the grid, and keeps its own value otherwise.
pub open spec fn mirror_spec(g: Seq<Seq<u8>>, ax: int, ay: int) -> Seq<Seq<u8>> {
    let h = g.len() as int;
    let w = grid_width(g) as int;
    make_grid(h as nat, w as nat, |r: int, c: int|
        if dist(ay, r) < h && dist(ax, c) < w { g[dist(ay, r)][dist(ax, c)] } else { g[r][c] })
}

/// `n` copies side by side, `m` copies top to bottom.
pub open spec fn tile_spec(g: Seq<Seq<u8>>, n: int, m: int) -> Seq<Seq<u8>> {
    let h = g.len() as int;
    let w = grid_width(g) as int;
    make_grid((h * m) as nat, (w * n) as nat, |i: int, j: int| g[i % h][j % w])
}

/// The `cw` by `ch` block at `(x, y)`.
pub open spec fn crop_spec(g: Seq<Seq<u8>>, x: int, y: int, cw: int, ch: int) -> Seq<Seq<u8>> {
    make_grid(ch as nat, cw as nat, |i: int, j: int| g[y + i][x + j])
}

/// Every cell of color `src` recolored `dst`.
pub open spec fn replace_spec(g: Seq<Seq<u8>>, src: u8, dst: u8) -> Seq<Seq<u8>> {
    let h = g.len() as int;
    let w = grid_width(g) as int;
    make_grid(h as nat, w as nat, |i: int, j: int| if g[i][j] == src { dst } else { g[i][j] })
}

/// Every cell blown up into an `f` by `f` block.
pub open spec fn scale_spec(g: Seq<Seq<u8>>, f: int) -> Seq<Seq<u8>> {
    let h = g.len() as int;
    let w = grid_width(g) as int;
    make_grid((h * f) as nat, (w * f) as nat, |i: int, j: int| g[i / f][j / f])
}

/// The number of cells of `s` equal to `c`.
pub open spec fn row_count(s: Seq<u8>, c: u8) -> nat
    decreases s.len(),
{
    if s.len() == 0 {
        0
    } else {
        row_count(s.drop_last(), c) + (if s.last() == c { 1nat } else { 0nat })
    }
}

/// The number of cells of the first `n` rows of `g` equal to `c`.
pub open spec fn rows_count(g: Seq<Seq<u8>>, n: int, c: u8) -> nat
    decreases n,
{
    if n <= 0 {
        0
    } else {
        rows_count(g, n - 1, c) + row_count(g[n - 1], c)
    }
}

/// The number of cells of `g` equal to `c`.
pub open spec fn color_count(g: Seq<Seq<u8>>, c: u8) -> nat {
    rows_count(g, g.len() as int, c)
}

/// `c` is the most common color of `g`, the smallest one on a tie.
pub open spec fn is_most_common_color(g: Seq<Seq<u8>>, c: u8) -> bool {
    &&& c < NUM_COLORS
    &&& forall|d: u8| d < NUM_COLORS ==> color_count(g, d) <= color_count(g, c)
    &&& forall|d: u8| d < c ==> color_count(g, d) < color_count(g, c)
}

/// The most common color of `g`, the smallest one on a tie.
pub open spec fn most_common_color_spec(g: Seq<Seq<u8>>) -> u8 {
    choose|c: u8| is_most_common_color(g, c)
}

/// Some cell of `g` differs from `bg`.
pub open spec fn has_content(g: Seq<Seq<u8>>, bg: u8) -> bool {
    exists|r: int, c: int| 0 <= r < g.len() && 0 <= c < g[r].len() && #[trigger] g[r][c] != bg
}

/// Rows `r0..=r1` and columns `c0..=c1` form the smallest box holding every
/// cell that differs from `bg`.
pub open spec fn is_content_box(g: Seq<Seq<u8>>, bg: u8, r0: int, r1: int, c0: int, c1: int) -> bool {
    &&& 0 <= r0 <= r1 < g.len()
    &&& 0 <= c0 <= c1 < grid_width(g)
    &&& forall|r: int, c: int| 0 <= r < g.len() && 0 <= c < g[r].len() && #[trigger] g[r][c] != bg
        ==> r0 <= r <= r1 && c0 <= c <= c1
    &&& exists|c: int| 0 <= c < grid_width(g) && #[trigger] g[r0][c] != bg
    &&& exists|c: int| 0 <= c < grid_width(g) && #[trigger] g[r1][c] != bg
    &&& exists|r: int| 0 <= r < g.len() && #[trigger] g[r][c0] != bg
    &&& exists|r: int| 0 <= r < g.len() && #[trigger] g[r][c1] != bg
}

/// The content box of `g` against its most common color.
pub open spec fn content_box(g: Seq<Seq<u8>>) -> (int, int, int, int) {
    choose|r0: int, r1: int, c0: int, c1: int| is_content_box(g, most_common_color_spec(g), r0, r1, c0, c1)
}

/// The grid cropped to the smallest box holding every cell that differs from
/// its most common color; unchanged when it is empty or has no such cell.
pub open spec fn crop_content_spec(g: Seq<Seq<u8>>) -> Seq<Seq<u8>> {
    if g.len() == 0 || grid_width(g) == 0 || !has_content(g, most_common_color_spec(g)) {
        g
    } else {
        let b = content_box(g);
        crop_spec(g, b.2, b.0, b.3 - b.2 + 1, b.1 - b.0 + 1)
    }
}

/// The result of applying one token to a grid; `None` where the operation
/// cannot be applied.
pub open spec fn op_spec(g: Seq<Seq<u8>>, t: ArcOpToken) -> Option<Seq<Seq<u8>>> {
    let h = g.len() as int;
    let w = grid_width(g) as int;
    let p0 = t.spec_param(0) as int;
    let p1 = t.spec_param(1) as int;
    let p2 = t.spec_param(2) as int;
    let p3 = t.spec_param(3) as int;
    let p4 = t.spec_param(4) as int;
    let p5 = t.spec_param(5) as int;
    match op_of_byte(t.byte(0)) {
        None => None,
        Some(op) => match op {
            ArcOpCode::Identity => Some(g),
            ArcOpCode::Rotate =>
                if p0 == 0 {
                    if w == 0 || h == 0 { None } else { Some(rotate90_spec(g)) }
                } else if p0 == 1 {
                    Some(rotate180_spec(g))
                } else if p0 == 2 {
                    if w == 0 || h == 0 { None } else { Some(rotate270_spec(g)) }
                } else {
                    None
                },
            ArcOpCode::Flip =>
                if p0 == 0 { Some(flip_horizontal_spec(g)) }
                else if p0 == 1 { Some(flip_vertical_spec(g)) }
                else { None },
            ArcOpCode::Move => Some(move_spec(g, p0, p1)),
            ArcOpCode::Fill =>
                if p1 >= w || p2 >= h { None }
                else if p0 >= NUM_COLORS && p3 > 0 && p4 > 0 { None }
                else { Some(fill_spec(g, t.spec_param(0), p1, p2, p3, p4)) },
            ArcOpCode::Copy =>
                if p0 + p4 > w || p1 + p5 > h || p2 + p4 > w || p3 + p5 > h { None }
                else { Some(copy_spec(g, p0, p1, p2, p3, p4, p5)) },
            ArcOpCode::Gravity =>
                if p0 <= 3 { Some(gravity_spec(g, t.spec_param(0))) } else { None },
            ArcOpCode::Mirror => Some(mirror_spec(g, p0, p1)),
            ArcOpCode::Tile =>
                if p0 == 0 || p1 == 0 || p0 > 4 || p1 > 4 || h == 0 || w == 0
                    || h * p1 > MAX_GRID_DIM || w * p0 > MAX_GRID_DIM { None }
                else { Some(tile_spec(g, p0, p1)) },
            ArcOpCode::Crop =>
                if p0 + p2 > w || p1 + p3 > h || p2 == 0 || p3 == 0 { None }
                else { Some(crop_spec(g, p0, p1, p2, p3)) },
            ArcOpCode::ReplaceColor =>
                if p0 == p1 { None }
                else if p1 >= NUM_COLORS && color_count(g, t.spec_param(0)) > 0 { None }
                else { Some(replace_spec(g, t.spec_param(0), t.spec_param(1))) },
            ArcOpCode::Scale =>
                if p0 == 0 || p0 > 3 || h == 0 || w == 0
                    || h * p0 > MAX_GRID_DIM || w * p0 > MAX_GRID_DIM { None }
                else { Some(scale_spec(g, p0)) },
            ArcOpCode::CropContent => Some(crop_content_spec(g)),
        },
    }
}

/// The result of applying tokens in order; `None` as soon as one cannot be applied.
pub open spec fn run_program(g: Seq<Seq<u8>>, ts: Seq<ArcOpToken>) -> Option<Seq<Seq<u8>>>
    decreases ts.len(),
{
    if ts.len() == 0 {
        Some(g)
    } else {
        match op_spec(g, ts[0]) {
            None => None,
            Some(g2) => run_program(g2, ts.drop_first()),
        }
    }
}

/// A grid built cell by cell from colors is a valid grid of its size.
pub proof fn lemma_make_grid_valid(n: nat, m: nat, f: spec_fn(int, int) -> u8)
    requires
        n <= MAX_GRID_DIM,
        m <= MAX_GRID_DIM,
        forall|i: int, j: int| 0 <= i < n && 0 <= j < m ==> #[trigger] f(i, j) < NUM_COLORS,
    ensures
        valid_cells(make_grid(n, m, f)),
        make_grid(n, m, f).len() == n,
        n > 0 ==> grid_width(make_grid(n, m, f)) == m,
{
    let g = make_grid(n, m, f);
    assert forall|i: int, j: int| 0 <= i < g.len() && 0 <= j < g[i].len() implies #[trigger] g[i][j] < NUM_COLORS by {
        assert(g[i][j] == f(i, j));
    }
}

/// A row holding a cell of color `c` counts at least one such cell.
pub proof fn lemma_row_count_positive(s: Seq<u8>, b: int, c: u8)
    requires
        0 <= b < s.len(),
        s[b] == c,
    ensures
        row_count(s, c) > 0,
    decreases s.len(),
{
    if b < s.len() - 1 {
        lemma_row_count_positive(s.drop_last(), b, c);
    }
}

/// The count over the first `n` rows is at least the count of any one of them.
pub proof fn lemma_rows_count_ge(g: Seq<Seq<u8>>, n: int, a: int, c: u8)
    requires
        0 <= a < n,
    ensures
        rows_count(g, n, c) >= row_count(g[a], c),
    decreases n,
{
    if a < n - 1 {
        lemma_rows_count_ge(g, n - 1, a, c);
    }
}

/// A grid holding a cell of color `c` counts at least one such cell.
pub proof fn lemma_count_positive(g: Seq<Seq<u8>>, a: int, b: int)
    requires
        0 <= a < g.len(),
        0 <= b < g[a].len(),
    ensures
        color_count(g, g[a][b]) > 0,
{
    lemma_row_count_positive(g[a], b, g[a][b]);
    lemma_rows_count_ge(g, g.len() as int, a, g[a][b]);
}

/// Packing keeps only cells of the line, and never lengthens it.
pub proof fn lemma_nonzero_bounded(s: Seq<u8>)
    requires
        forall|k: int| 0 <= k < s.len() ==> #[trigger] s[k] < NUM_COLORS,
    ensures
        nonzero(s).len() <= s.len(),
        forall|k: int| 0 <= k < nonzero(s).len() ==> #[trigger] nonzero(s)[k] < NUM_COLORS,
    decreases s.len(),
{
    if s.len() > 0 {
        let t = s.drop_last();
        assert forall|k: int| 0 <= k < t.len() implies #[trigger] t[k] < NUM_COLORS by {
            assert(t[k] == s[k]);
        }
        lemma_nonzero_bounded(t);
    }
}

/// Packed lines keep their length and hold colors.
pub proof fn lemma_pack_bounded(s: Seq<u8>)
    requires
        forall|k: int| 0 <= k < s.len() ==> #[trigger] s[k] < NUM_COLORS,
    ensures
        pack_start(s).len() == s.len(),
        pack_end(s).len() == s.len(),
        forall|k: int| 0 <= k < s.len() ==> #[trigger] pack_start(s)[k] < NUM_COLORS,
        forall|k: int| 0 <= k < s.len() ==> #[trigger] pack_end(s)[k] < NUM_COLORS,
{
    lemma_nonzero_bounded(s);
    let nz = nonzero(s);
    let z = Seq::new((s.len() - nz.len()) as nat, |k: int| 0u8);
    assert forall|k: int| 0 <= k < s.len() implies #[trigger] pack_start(s)[k] < NUM_COLORS by {
        if k < nz.len() { assert(pack_start(s)[k] == nz[k]); } else { assert(pack_start(s)[k] == z[k - nz.len()]); }
    }
    assert forall|k: int| 0 <= k < s.len() implies #[trigger] pack_end(s)[k] < NUM_COLORS by {
        if k < z.len() { assert(pack_end(s)[k] == z[k]); } else { assert(pack_end(s)[k] == nz[k - z.len()]); }
    }
}

/// There is exactly one most common color, so the chosen one is it.
pub proof fn lemma_most_common_unique(g: Seq<Seq<u8>>, c: u8)
    requires
        is_most_common_color(g, c),
    ensures
        most_common_color_spec(g) == c,
{
    let d = most_common_color_spec(g);
    assert(is_most_common_color(g, d));
    if d < c {
        assert(color_count(g, d) < color_count(g, c));
    } else if c < d {
        assert(color_count(g, c) < color_count(g, d));
    }
}

/// There is at most one content box, so the chosen one is it.
pub proof fn lemma_content_box_unique(g: Seq<Seq<u8>>, r0: int, r1: int, c0: int, c1: int)
    requires
        valid_cells(g),
        is_content_box(g, most_common_color_spec(g), r0, r1, c0, c1),
    ensures
        content_box(g) == (r0, r1, c0, c1),
{
    let bg = most_common_color_spec(g);
    let b = content_box(g);
    assert(is_content_box(g, bg, r0, r1, c0, c1));
    assert(is_content_box(g, bg, b.0, b.1, b.2, b.3));
    let x0 = choose|c: int| 0 <= c < grid_width(g) && #[trigger] g[b.0][c] != bg;
    assert(g[b.0].len() == grid_width(g));
    let x1 = choose|c: int| 0 <= c < grid_width(g) && #[trigger] g[b.1][c] != bg;
    assert(g[b.1].len() == grid_width(g));
    let y0 = choose|r: int| 0 <= r < g.len() && #[trigger] g[r][b.2] != bg;
    assert(g[y0].len() == grid_width(g));
    let y1 = choose|r: int| 0 <= r < g.len() && #[trigger] g[r][b.3] != bg;
    assert(g[y1].len() == grid_width(g));
    let u0 = choose|c: int| 0 <= c < grid_width(g) && #[trigger] g[r0][c] != bg;
    assert(g[r0].len() == grid_width(g));
    let u1 = choose|c: int| 0 <= c < grid_width(g) && #[trigger] g[r1][c] != bg;
    assert(g[r1].len() == grid_width(g));
    let v0 = choose|r: int| 0 <= r < g.len() && #[trigger] g[r][c0] != bg;
    assert(g[v0].len() == grid_width(g));
    let v1 = choose|r: int| 0 <= r < g.len() && #[trigger] g[r][c1] != bg;
    assert(g[v1].len() == grid_width(g));
}

/// A row with no cell of color `c` counts none.
pub proof fn lemma_row_count_zero(s: Seq<u8>, c: u8)
    requires
        forall|k: int| 0 <= k < s.len() ==> #[trigger] s[k] != c,
    ensures
        row_count(s, c) == 0,
    decreases s.len(),
{
    if s.len() > 0 {
        let t = s.drop_last();
        assert forall|k: int| 0 <= k < t.len() implies #[trigger] t[k] != c by {
            assert(t[k] == s[k]);
        }
        lemma_row_count_zero(t, c);
    }
}

/// Rows with no cell of color `c` count none.
pub proof fn lemma_rows_count_zero(g: Seq<Seq<u8>>, n: int, c: u8)
    requires
        n <= g.len(),
        forall|r: int, k: int| 0 <= r < g.len() && 0 <= k < g[r].len() ==> #[trigger] g[r][k] != c,
    ensures
        rows_count(g, n, c) == 0,
    decreases n,
{
    if n > 0 {
        lemma_rows_count_zero(g, n - 1, c);
        assert forall|k: int| 0 <= k < g[n - 1].len() implies #[trigger] g[n - 1][k] != c by {}
        lemma_row_count_zero(g[n - 1], c);
    }
}

/// Running `a` then `b` is running `a + b`: a program stops at the first token
/// that cannot be applied.
pub proof fn lemma_run_program_concat(g: Seq<Seq<u8>>, a: Seq<ArcOpToken>, b: Seq<ArcOpToken>)
    ensures
        run_program(g, a + b) == (match run_program(g, a) {
            None => None,
            Some(g2) => run_program(g2, b),
        }),
    decreases a.len(),
{
    if a.len() == 0 {
        assert(a + b =~= b);
    } else {
        assert((a + b)[0] == a[0]);
        assert((a + b).drop_first() =~= a.drop_first() + b);
        match op_spec(g, a[0]) {
            None => {},
            Some(g2) => {
                lemma_run_program_concat(g2, a.drop_first(), b);
            },
        }
    }
}

/// A program with one more token runs the shorter program and then applies
/// the token to its result; it fails when either step fails.
pub proof fn lemma_run_program_snoc(g: Seq<Seq<u8>>, ts: Seq<ArcOpToken>, t: ArcOpToken)
    ensures
        run_program(g, ts.push(t)) == (match run_program(g, ts) {
            None => None,
            Some(h) => op_spec(h, t),
        }),
{
    lemma_run_program_concat(g, ts, seq![t]);
    assert(ts.push(t) =~= ts + seq![t]);
    assert(seq![t].drop_first() =~= Seq::<ArcOpToken>::empty());
    match run_program(g, ts) {
        None => {},
        Some(h) => {
            assert(seq![t][0] == t);
            match op_spec(h, t) {
                None => {},
                Some(h2) => {
                    assert(run_program(h2, seq![t].drop_first()) == Some(h2));
                },
            }
        },
    }
}

/// The empty program leaves every grid as it is.
pub proof fn lemma_run_program_empty(g: Seq<Seq<u8>>)
    ensures
        run_program(g, Seq::empty()) == Some(g),
{
}

/// Flipping left to right twice gives the grid back.
pub proof fn lemma_flip_horizontal_involution(g: Seq<Seq<u8>>)
    requires
        valid_cells(g),
    ensures
        flip_horizontal_spec(flip_horizontal_spec(g)) == g,
{
    let f = flip_horizontal_spec(g);
    assert(g.len() > 0 ==> grid_width(f) == grid_width(g));
    assert forall|i: int| 0 <= i < g.len() implies #[trigger] flip_horizontal_spec(f)[i] =~= g[i] by {}
    assert(flip_horizontal_spec(f) =~= g);
}

/// Flipping top to bottom twice gives the grid back.
pub proof fn lemma_flip_vertical_involution(g: Seq<Seq<u8>>)
    requires
        valid_cells(g),
    ensures
        flip_vertical_spec(flip_vertical_spec(g)) == g,
{
    let f = flip_vertical_spec(g);
    assert(g.len() > 0 ==> grid_width(f) == grid_width(g));
    assert forall|i: int| 0 <= i < g.len() implies #[trigger] flip_vertical_spec(f)[i] =~= g[i] by {
        assert(g[g.len() - 1 - i].len() == grid_width(g));
    }
    assert(flip_vertical_spec(f) =~= g);
}

/// Rotating by 180 degrees twice gives the grid back.
pub proof fn lemma_rotate180_involution(g: Seq<Seq<u8>>)
    requires
        valid_cells(g),
    ensures
        rotate180_spec(rotate180_spec(g)) == g,
{
    let f = rotate180_spec(g);
    assert(g.len() > 0 ==> grid_width(f) == grid_width(g));
    assert forall|i: int| 0 <= i < g.len() implies #[trigger] rotate180_spec(f)[i] =~= g[i] by {
        assert(g[g.len() - 1 - i].len() == grid_width(g));
    }
    assert(rotate180_spec(f) =~= g);
}

/// Rotating by 90 degrees and then by 270 degrees gives a non-empty grid back.
pub proof fn lemma_rotate90_then_270(g: Seq<Seq<u8>>)
    requires
        valid_cells(g),
        g.len() > 0,
        grid_width(g) > 0,
    ensures
        rotate270_spec(rotate90_spec(g)) == g,
{
    let f = rotate90_spec(g);
    assert(f.len() == grid_width(g));
    assert(grid_width(f) == g.len());
    assert forall|i: int| 0 <= i < g.len() implies #[trigger] rotate270_spec(f)[i] =~= g[i] by {
        assert(g[i].len() == grid_width(g));
    }
    assert(rotate270_spec(f) =~= g);
}

/// Two quarter turns make a half turn, for a non-empty grid.
pub proof fn lemma_rotate90_twice(g: Seq<Seq<u8>>)
    requires
        valid_cells(g),
        g.len() > 0,
        grid_width(g) > 0,
    ensures
        rotate90_spec(rotate90_spec(g)) == rotate180_spec(g),
{
    let f = rotate90_spec(g);
    assert(f.len() == grid_width(g));
    assert(grid_width(f) == g.len());
    assert forall|i: int| 0 <= i < g.len() implies #[trigger] rotate90_spec(f)[i] =~= rotate180_spec(g)[i] by {
        assert(g[g.len() - 1 - i].len() == grid_width(g));
    }
    assert(rotate90_spec(f) =~= rotate180_spec(g));
}

} // verus!

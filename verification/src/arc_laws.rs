//! What each grid operation does, stated cell by cell from the bytes of its
//! token: byte 0 is the op code, bytes 1-7 its parameters in the order the
//! token format lays them out.

use vstd::prelude::*;
use crate::grid::{grid_width, valid_cells};
use crate::arc_program::ArcOpToken;
use crate::arc_spec::{op_spec, dist, lemma_count_positive, lemma_rows_count_zero, nonzero, pack_start, pack_end, column};

verus! {

/// Byte `k` of a token as an integer.
pub open spec fn tok(t: ArcOpToken, k: int) -> int {
    t.0@[k] as int
}

/// `r` has `n` rows of `m` cells.
pub open spec fn has_dims(r: Seq<Seq<u8>>, n: int, m: int) -> bool {
    r.len() == n && forall|i: int| 0 <= i < n ==> #[trigger] r[i].len() == m
}

/// An op code above 12 names no operation.
pub proof fn lemma_unknown_op(g: Seq<Seq<u8>>, t: ArcOpToken)
    requires
        tok(t, 0) > 12,
    ensures
        op_spec(g, t) is None,
{
}

/// Identity (op 0) gives the grid back.
pub proof fn lemma_identity_law(g: Seq<Seq<u8>>, t: ArcOpToken)
    requires
        tok(t, 0) == 0,
    ensures
        op_spec(g, t) == Some(g),
{
}

/// Crop (op 9): byte 1 is the column and byte 2 the row of the top-left
/// corner, byte 3 the width and byte 4 the height. It succeeds exactly when
/// the block is non-empty and lies on the grid, and cell `(i, j)` of the
/// result is cell `(row + i, column + j)` of the grid.
pub proof fn lemma_crop_law(g: Seq<Seq<u8>>, t: ArcOpToken)
    requires
        valid_cells(g),
        tok(t, 0) == 9,
    ensures
        ({
            let (x, y, cw, ch) = (tok(t, 1), tok(t, 2), tok(t, 3), tok(t, 4));
            &&& op_spec(g, t) is Some <==> (cw > 0 && ch > 0 && x + cw <= grid_width(g) && y + ch <= g.len())
            &&& op_spec(g, t) matches Some(r) ==> has_dims(r, ch, cw)
                && forall|i: int, j: int| 0 <= i < ch && 0 <= j < cw ==> #[trigger] r[i][j] == g[y + i][x + j]
        }),
{
}

/// Fill (op 4): byte 1 is the color, bytes 2 and 3 the column and row of the
/// corner, bytes 4 and 5 the width and height. It succeeds exactly when the
/// corner is on the grid and the color is below 10 or the rectangle is empty;
/// the rectangle, clipped to the grid, takes the color and every other cell
/// keeps its value.
pub proof fn lemma_fill_law(g: Seq<Seq<u8>>, t: ArcOpToken)
    requires
        valid_cells(g),
        tok(t, 0) == 4,
    ensures
        ({
            let (color, x, y, fw, fh) = (tok(t, 1), tok(t, 2), tok(t, 3), tok(t, 4), tok(t, 5));
            let h = g.len() as int;
            let w = grid_width(g) as int;
            &&& op_spec(g, t) is Some <==> (x < w && y < h && (color < 10 || fw == 0 || fh == 0))
            &&& op_spec(g, t) matches Some(r) ==> has_dims(r, h, w)
                && forall|i: int, j: int| 0 <= i < h && 0 <= j < w ==> #[trigger] r[i][j] ==
                    (if y <= i < y + fh && x <= j < x + fw { color } else { g[i][j] as int })
        }),
{
}

/// Copy (op 5): bytes 1 and 2 are the column and row of the source block,
/// bytes 3 and 4 those of the destination, bytes 5 and 6 the width and
/// height. It succeeds exactly when both blocks lie on the grid; each
/// destination cell takes the source cell at the same offset, the others keep
/// their values.
pub proof fn lemma_copy_law(g: Seq<Seq<u8>>, t: ArcOpToken)
    requires
        valid_cells(g),
        tok(t, 0) == 5,
    ensures
        ({
            let (sx, sy, dx, dy, cw, ch) = (tok(t, 1), tok(t, 2), tok(t, 3), tok(t, 4), tok(t, 5), tok(t, 6));
            let h = g.len() as int;
            let w = grid_width(g) as int;
            &&& op_spec(g, t) is Some <==> (sx + cw <= w && sy + ch <= h && dx + cw <= w && dy + ch <= h)
            &&& op_spec(g, t) matches Some(r) ==> has_dims(r, h, w)
                && (forall|a: int, b: int| 0 <= a < ch && 0 <= b < cw ==> #[trigger] r[dy + a][dx + b] == g[sy + a][sx + b])
                && (forall|i: int, j: int| 0 <= i < h && 0 <= j < w && !(dy <= i < dy + ch && dx <= j < dx + cw)
                    ==> #[trigger] r[i][j] == g[i][j])
        }),
{
}

/// Move (op 3): byte 1 is the shift to the right and byte 2 the shift down.
/// It always succeeds; every cell takes the cell that far up and to the left,
/// or 0 when that lies off the grid.
pub proof fn lemma_move_law(g: Seq<Seq<u8>>, t: ArcOpToken)
    requires
        valid_cells(g),
        tok(t, 0) == 3,
    ensures
        ({
            let (dx, dy) = (tok(t, 1), tok(t, 2));
            let h = g.len() as int;
            let w = grid_width(g) as int;
            &&& op_spec(g, t) is Some
            &&& op_spec(g, t) matches Some(r) ==> has_dims(r, h, w)
                && forall|i: int, j: int| 0 <= i < h && 0 <= j < w ==> #[trigger] r[i][j] ==
                    (if i >= dy && j >= dx { g[i - dy][j - dx] } else { 0u8 })
        }),
{
}

/// Mirror (op 7): byte 1 is the column axis and byte 2 the row axis. It
/// always succeeds; cell `(i, j)` takes the cell at distances
/// `(|row axis - i|, |column axis - j|)` from the corner when that is on the
/// grid, and keeps its value otherwise.
pub proof fn lemma_mirror_law(g: Seq<Seq<u8>>, t: ArcOpToken)
    requires
        valid_cells(g),
        tok(t, 0) == 7,
    ensures
        ({
            let (ax, ay) = (tok(t, 1), tok(t, 2));
            let h = g.len() as int;
            let w = grid_width(g) as int;
            &&& op_spec(g, t) is Some
            &&& op_spec(g, t) matches Some(r) ==> has_dims(r, h, w)
                && forall|i: int, j: int| 0 <= i < h && 0 <= j < w ==> #[trigger] r[i][j] ==
                    (if dist(ay, i) < h && dist(ax, j) < w { g[dist(ay, i)][dist(ax, j)] } else { g[i][j] })
        }),
{
}

/// Tile (op 8): byte 1 is the number of copies side by side and byte 2 the
/// number top to bottom, each 1 to 4. It succeeds exactly when both are in
/// range, the grid is not empty and the result is at most 30 by 30; cell
/// `(i, j)` is the grid's cell `(i mod height, j mod width)`.
pub proof fn lemma_tile_law(g: Seq<Seq<u8>>, t: ArcOpToken)
    requires
        valid_cells(g),
        tok(t, 0) == 8,
    ensures
        ({
            let (n, m) = (tok(t, 1), tok(t, 2));
            let h = g.len() as int;
            let w = grid_width(g) as int;
            &&& op_spec(g, t) is Some <==> (1 <= n <= 4 && 1 <= m <= 4 && h > 0 && w > 0 && h * m <= 30 && w * n <= 30)
            &&& op_spec(g, t) matches Some(r) ==> has_dims(r, h * m, w * n)
                && forall|i: int, j: int| 0 <= i < h * m && 0 <= j < w * n ==> #[trigger] r[i][j] == g[i % h][j % w]
        }),
{
}

/// Scale (op 11): byte 1 is the factor, 1 to 3. It succeeds exactly when the
/// factor is in range, the grid is not empty and the result is at most 30 by
/// 30; cell `(i, j)` is the grid's cell `(i / factor, j / factor)`.
pub proof fn lemma_scale_law(g: Seq<Seq<u8>>, t: ArcOpToken)
    requires
        valid_cells(g),
        tok(t, 0) == 11,
    ensures
        ({
            let f = tok(t, 1);
            let h = g.len() as int;
            let w = grid_width(g) as int;
            &&& op_spec(g, t) is Some <==> (1 <= f <= 3 && h > 0 && w > 0 && h * f <= 30 && w * f <= 30)
            &&& op_spec(g, t) matches Some(r) ==> has_dims(r, h * f, w * f)
                && forall|i: int, j: int| 0 <= i < h * f && 0 <= j < w * f ==> #[trigger] r[i][j] == g[i / f][j / f]
        }),
{
}

/// ReplaceColor (op 10): byte 1 is the color replaced and byte 2 its
/// replacement. It succeeds exactly when they differ and the replacement is
/// a color or nothing is replaced; cells of the first color take the second.
pub proof fn lemma_replace_color_law(g: Seq<Seq<u8>>, t: ArcOpToken)
    requires
        valid_cells(g),
        tok(t, 0) == 10,
    ensures
        ({
            let (src, dst) = (tok(t, 1), tok(t, 2));
            let h = g.len() as int;
            let w = grid_width(g) as int;
            &&& op_spec(g, t) is Some <==> (src != dst
                && (dst < 10 || forall|i: int, j: int| 0 <= i < h && 0 <= j < w ==> g[i][j] != src))
            &&& op_spec(g, t) matches Some(r) ==> has_dims(r, h, w)
                && forall|i: int, j: int| 0 <= i < h && 0 <= j < w ==> #[trigger] r[i][j] ==
                    (if g[i][j] == src { dst } else { g[i][j] as int })
        }),
{
    let (src, dst) = (t.0@[1], t.0@[2]);
    let h = g.len() as int;
    let w = grid_width(g) as int;
    if forall|i: int, j: int| 0 <= i < h && 0 <= j < w ==> g[i][j] != src {
        assert forall|r: int, k: int| 0 <= r < g.len() && 0 <= k < g[r].len() implies #[trigger] g[r][k] != src by {
            assert(g[r].len() == w);
        }
        lemma_rows_count_zero(g, g.len() as int, src);
    } else {
        let (i, j) = choose|i: int, j: int| 0 <= i < h && 0 <= j < w && g[i][j] == src;
        assert(g[i].len() == w);
        lemma_count_positive(g, i, j);
    }
}

/// Rotate (op 1): byte 1 picks 90 (0), 180 (1) or
/// 270 (2) degrees clockwise; other values fail, and so do the quarter turns
/// of an empty grid. A quarter turn makes cell `(i, j)` the grid's cell
/// `(j, width - 1 - i)`, the half turn cell `(height - 1 - i, width - 1 - j)`,
/// the three-quarter turn cell `(height - 1 - j, i)`.
pub proof fn lemma_rotate_law(g: Seq<Seq<u8>>, t: ArcOpToken)
    requires
        valid_cells(g),
        tok(t, 0) == 1,
    ensures
        ({
            let a = tok(t, 1);
            let h = g.len() as int;
            let w = grid_width(g) as int;
            &&& op_spec(g, t) is Some <==> (a == 1 || ((a == 0 || a == 2) && h > 0 && w > 0))
            &&& a == 0 ==> (op_spec(g, t) matches Some(r) ==> has_dims(r, w, h)
                && forall|i: int, j: int| 0 <= i < w && 0 <= j < h ==> #[trigger] r[i][j] == g[j][w - 1 - i])
            &&& a == 1 ==> (op_spec(g, t) matches Some(r) ==> has_dims(r, h, w)
                && forall|i: int, j: int| 0 <= i < h && 0 <= j < w ==> #[trigger] r[i][j] == g[h - 1 - i][w - 1 - j])
            &&& a == 2 ==> (op_spec(g, t) matches Some(r) ==> has_dims(r, w, h)
                && forall|i: int, j: int| 0 <= i < w && 0 <= j < h ==> #[trigger] r[i][j] == g[h - 1 - j][i])
        }),
{
}

/// Flip (op 2): byte 1 picks left-right (0) or top-bottom (1); other values
/// fail. Left-right makes cell `(i, j)` the grid's cell `(i, width - 1 - j)`,
/// top-bottom cell `(height - 1 - i, j)`.
pub proof fn lemma_flip_law(g: Seq<Seq<u8>>, t: ArcOpToken)
    requires
        valid_cells(g),
        tok(t, 0) == 2,
    ensures
        ({
            let a = tok(t, 1);
            let h = g.len() as int;
            let w = grid_width(g) as int;
            &&& op_spec(g, t) is Some <==> a <= 1
            &&& op_spec(g, t) matches Some(r) ==> has_dims(r, h, w)
                && forall|i: int, j: int| 0 <= i < h && 0 <= j < w ==> #[trigger] r[i][j] ==
                    (if a == 0 { g[i][w - 1 - j] } else { g[h - 1 - i][j] })
        }),
{
}

/// The non-zero cells of a concatenation are those of each part, in order.
proof fn lemma_nonzero_concat(a: Seq<u8>, b: Seq<u8>)
    ensures
        nonzero(a + b) == nonzero(a) + nonzero(b),
    decreases b.len(),
{
    if b.len() == 0 {
        assert(a + b =~= a);
        assert(nonzero(a) + nonzero(b) =~= nonzero(a));
    } else {
        assert((a + b).drop_last() =~= a + b.drop_last());
        assert((a + b).last() == b.last());
        lemma_nonzero_concat(a, b.drop_last());
        if b.last() != 0 {
            assert(nonzero(a) + nonzero(b.drop_last()).push(b.last()) =~= (nonzero(a) + nonzero(b.drop_last())).push(b.last()));
        }
    }
}

/// A line of zeros has no non-zero cells.
proof fn lemma_nonzero_zeros(n: nat)
    ensures
        nonzero(Seq::new(n, |k: int| 0u8)) == Seq::<u8>::empty(),
    decreases n,
{
    if n > 0 {
        assert(Seq::new(n, |k: int| 0u8).drop_last() =~= Seq::new((n - 1) as nat, |k: int| 0u8));
        lemma_nonzero_zeros((n - 1) as nat);
    }
}

/// The non-zero cells of a line are non-zero, at most as many as its cells,
/// and the line itself when it has no zero.
proof fn lemma_nonzero_facts(s: Seq<u8>)
    ensures
        nonzero(s).len() <= s.len(),
        forall|k: int| 0 <= k < nonzero(s).len() ==> #[trigger] nonzero(s)[k] != 0,
        nonzero(nonzero(s)) == nonzero(s),
    decreases s.len(),
{
    if s.len() > 0 {
        lemma_nonzero_facts(s.drop_last());
        let t = nonzero(s.drop_last());
        if s.last() != 0 {
            assert(t.push(s.last()).drop_last() =~= t);
            assert(t.push(s.last()).last() == s.last());
        }
    }
}

/// Packing a line keeps its length and its non-zero cells in order; packed
/// at the end, a non-zero cell has only non-zero cells after it; packed at
/// the start, only non-zero cells before it.
proof fn lemma_pack_facts(s: Seq<u8>)
    ensures
        pack_end(s).len() == s.len(),
        pack_start(s).len() == s.len(),
        nonzero(pack_end(s)) == nonzero(s),
        nonzero(pack_start(s)) == nonzero(s),
        forall|i: int, k: int| #![trigger pack_end(s)[i], pack_end(s)[k]] 0 <= i < k < s.len() && pack_end(s)[i] != 0 ==> pack_end(s)[k] != 0,
        forall|i: int, k: int| #![trigger pack_start(s)[i], pack_start(s)[k]] 0 <= k < i < s.len() && pack_start(s)[i] != 0 ==> pack_start(s)[k] != 0,
{
    lemma_nonzero_facts(s);
    let nz = nonzero(s);
    let zn = (s.len() - nz.len()) as nat;
    let z = Seq::new(zn, |k: int| 0u8);
    lemma_nonzero_zeros(zn);
    lemma_nonzero_concat(z, nz);
    lemma_nonzero_concat(nz, z);
    assert(Seq::<u8>::empty() + nz =~= nz);
    assert(nz + Seq::<u8>::empty() =~= nz);
    assert forall|i: int, k: int| #![trigger pack_end(s)[i], pack_end(s)[k]] 0 <= i < k < s.len() && pack_end(s)[i] != 0 implies pack_end(s)[k] != 0 by {
        assert(pack_end(s)[k] == nz[k - zn]);
    }
    assert forall|i: int, k: int| #![trigger pack_start(s)[i], pack_start(s)[k]] 0 <= k < i < s.len() && pack_start(s)[i] != 0 implies pack_start(s)[k] != 0 by {
        if i < nz.len() {
            assert(pack_start(s)[k] == nz[k]);
        } else {
            assert(pack_start(s)[i] == z[i - nz.len()]);
        }
    }
}

/// Gravity (op 6): byte 1 is the direction, down (0), up (1), left (2) or
/// right (3); other values fail. Each column (down, up) or row (left, right)
/// keeps its non-zero cells in order, and they end up against the side they
/// fall to: a non-zero cell has only non-zero cells between it and that side.
pub proof fn lemma_gravity_law(g: Seq<Seq<u8>>, t: ArcOpToken)
    requires
        valid_cells(g),
        tok(t, 0) == 6,
    ensures
        ({
            let dir = tok(t, 1);
            let h = g.len() as int;
            let w = grid_width(g) as int;
            &&& op_spec(g, t) is Some <==> dir <= 3
            &&& op_spec(g, t) matches Some(r) ==> has_dims(r, h, w)
            &&& dir == 0 ==> (op_spec(g, t) matches Some(r) ==>
                (forall|j: int| 0 <= j < w ==> #[trigger] nonzero(column(r, j)) == nonzero(column(g, j)))
                && forall|i: int, k: int, j: int| #![trigger r[i][j], r[k][j]] 0 <= i < k < h && 0 <= j < w && r[i][j] != 0 ==> r[k][j] != 0)
            &&& dir == 1 ==> (op_spec(g, t) matches Some(r) ==>
                (forall|j: int| 0 <= j < w ==> #[trigger] nonzero(column(r, j)) == nonzero(column(g, j)))
                && forall|i: int, k: int, j: int| #![trigger r[i][j], r[k][j]] 0 <= k < i < h && 0 <= j < w && r[i][j] != 0 ==> r[k][j] != 0)
            &&& dir == 2 ==> (op_spec(g, t) matches Some(r) ==>
                (forall|i: int| 0 <= i < h ==> #[trigger] nonzero(r[i]) == nonzero(g[i]))
                && forall|i: int, j: int, k: int| #![trigger r[i][j], r[i][k]] 0 <= i < h && 0 <= k < j < w && r[i][j] != 0 ==> r[i][k] != 0)
            &&& dir == 3 ==> (op_spec(g, t) matches Some(r) ==>
                (forall|i: int| 0 <= i < h ==> #[trigger] nonzero(r[i]) == nonzero(g[i]))
                && forall|i: int, j: int, k: int| #![trigger r[i][j], r[i][k]] 0 <= i < h && 0 <= j < k < w && r[i][j] != 0 ==> r[i][k] != 0)
        }),
{
    let dir = t.0@[1];
    let h = g.len() as int;
    let w = grid_width(g) as int;
    if dir <= 3 {
        let r = op_spec(g, t)->Some_0;
        if dir <= 1 {
            assert forall|j: int| 0 <= j < w implies #[trigger] column(r, j) == (if dir == 0 { pack_end(column(g, j)) } else { pack_start(column(g, j)) }) by {
                lemma_pack_facts(column(g, j));
                assert(column(r, j) =~= (if dir == 0 { pack_end(column(g, j)) } else { pack_start(column(g, j)) }));
            }
            assert forall|j: int| 0 <= j < w implies #[trigger] nonzero(column(r, j)) == nonzero(column(g, j)) by {
                lemma_pack_facts(column(g, j));
            }
            assert forall|i: int, k: int, j: int| #![trigger r[i][j], r[k][j]] 0 <= i < h && 0 <= k < h && i != k && 0 <= j < w && r[i][j] != 0
                && (if dir == 0 { i < k } else { k < i }) implies r[k][j] != 0 by {
                lemma_pack_facts(column(g, j));
                assert(r[i][j] == column(r, j)[i] && r[k][j] == column(r, j)[k]);
            }
        } else {
            assert forall|i: int| 0 <= i < h implies #[trigger] r[i] == (if dir == 2 { pack_start(g[i]) } else { pack_end(g[i]) }) by {
                assert(g[i].len() == w);
                lemma_pack_facts(g[i]);
                assert(r[i] =~= (if dir == 2 { pack_start(g[i]) } else { pack_end(g[i]) }));
            }
            assert forall|i: int| 0 <= i < h implies #[trigger] nonzero(r[i]) == nonzero(g[i]) by {
                lemma_pack_facts(g[i]);
            }
            assert forall|i: int, j: int, k: int| #![trigger r[i][j], r[i][k]] 0 <= i < h && 0 <= j < w && 0 <= k < w && j != k && r[i][j] != 0
                && (if dir == 2 { k < j } else { j < k }) implies r[i][k] != 0 by {
                assert(g[i].len() == w);
                lemma_pack_facts(g[i]);
            }
        }
    }
}

} // verus!

//! Parsing ARC grids into objects: 4-connected components, color statistics
//! and object graphs.

use vstd::prelude::*;
use crate::grid::{ArcGrid, grid_width, valid_cells, NUM_COLORS};
use crate::arc_spec::{dist, color_count, is_most_common_color, most_common_color_spec, lemma_count_positive, lemma_rows_count_zero};
use crate::arc_apply::{color_counts, most_common_color, cell};

verus! {

/// A pixel position, `(row, column)`.
pub type Pixel = (usize, usize);

/// The pixel lies on a grid with `h` rows and `w` columns.
pub open spec fn on_grid(h: int, w: int, p: Pixel) -> bool {
    p.0 < h && p.1 < w
}

/// The two pixels share a side.
pub open spec fn adjacent(a: Pixel, b: Pixel) -> bool {
    (a.0 == b.0 && dist(a.1 as int, b.1 as int) == 1) || (a.1 == b.1 && dist(a.0 as int, b.0 as int) == 1)
}

/// `a` comes strictly before `b` in row-major order.
pub open spec fn row_major_less(a: Pixel, b: Pixel) -> bool {
    a.0 < b.0 || (a.0 == b.0 && a.1 < b.1)
}

/// The color of a pixel.
pub open spec fn pix(g: Seq<Seq<u8>>, p: Pixel) -> u8 {
    g[p.0 as int][p.1 as int]
}

/// Every pixel after the first shares a side with an earlier one, so the
/// pixels form one 4-connected region.
pub open spec fn connected_order(ps: Seq<Pixel>) -> bool {
    forall|k: int| 0 < k < ps.len() ==> #[trigger] has_earlier_neighbor(ps, k)
}

/// Pixel `k` shares a side with an earlier pixel.
pub open spec fn has_earlier_neighbor(ps: Seq<Pixel>, k: int) -> bool {
    exists|l: int| 0 <= l < k && #[trigger] adjacent(ps[l], ps[k])
}

/// Every same-colored neighbor of a pixel of the region is in the region.
pub open spec fn closed_region(g: Seq<Seq<u8>>, ps: Seq<Pixel>, color: u8) -> bool {
    forall|k: int, q: Pixel| 0 <= k < ps.len() && on_grid(g.len() as int, grid_width(g) as int, q)
        && #[trigger] adjacent(ps[k], q) && pix(g, q) == color ==> ps.contains(q)
}

/// `bbox` is `(min row, max row, min column, max column)` of the pixels.
pub open spec fn is_bbox(ps: Seq<Pixel>, bbox: (usize, usize, usize, usize)) -> bool {
    &&& forall|k: int| 0 <= k < ps.len() ==> bbox.0 <= (#[trigger] ps[k]).0 <= bbox.1 && bbox.2 <= ps[k].1 <= bbox.3
    &&& exists|k: int| 0 <= k < ps.len() && (#[trigger] ps[k]).0 == bbox.0
    &&& exists|k: int| 0 <= k < ps.len() && (#[trigger] ps[k]).0 == bbox.1
    &&& exists|k: int| 0 <= k < ps.len() && (#[trigger] ps[k]).1 == bbox.2
    &&& exists|k: int| 0 <= k < ps.len() && (#[trigger] ps[k]).1 == bbox.3
}

/// A connected component of non-background pixels in an ARC grid (4-connectivity).
#[derive(Debug, PartialEq, Eq)]
pub struct Component {
    /// The color of this component.
    pub color: u8,
    /// The pixels in this component as (row, col) pairs.
    pub pixels: Vec<(usize, usize)>,
    /// Bounding box: (min_row, max_row, min_col, max_col).
    pub bbox: (usize, usize, usize, usize),
}

/// `comp` is a maximal 4-connected region of one non-zero color of `g`: its
/// pixels are distinct, in the grid and of its color; the first is the
/// earliest in row-major order and every other one shares a side with an
/// earlier one; every same-colored neighbor is included; the pixels come in
/// the order of the depth-first walk from the first; `bbox` bounds it tightly.
pub open spec fn is_component(g: Seq<Seq<u8>>, comp: Component) -> bool {
    let ps = comp.pixels@;
    &&& ps.len() > 0
    &&& ps == region_order(g, ps[0])
    &&& comp.color != 0
    &&& ps.no_duplicates()
    &&& forall|k: int| 0 <= k < ps.len() ==> on_grid(g.len() as int, grid_width(g) as int, #[trigger] ps[k])
        && pix(g, ps[k]) == comp.color
    &&& forall|k: int| 0 < k < ps.len() ==> row_major_less(ps[0], #[trigger] ps[k])
    &&& connected_order(ps)
    &&& closed_region(g, ps, comp.color)
    &&& is_bbox(ps, comp.bbox)
}

/// `comps` lists every connected component of `g` exactly once: each is a
/// component, no two share a pixel, every non-zero pixel is in one, and they
/// come largest first, equal sizes in the row-major order of their first pixels.
pub open spec fn is_component_list(g: Seq<Seq<u8>>, comps: Seq<Component>) -> bool {
    &&& forall|i: int| 0 <= i < comps.len() ==> is_component(g, #[trigger] comps[i])
    &&& forall|i: int, j: int, p: Pixel| 0 <= i < comps.len() && 0 <= j < comps.len() && i != j
        && #[trigger] comps[i].pixels@.contains(p) ==> !(#[trigger] comps[j].pixels@.contains(p))
    &&& forall|p: Pixel| on_grid(g.len() as int, grid_width(g) as int, p) && #[trigger] pix(g, p) != 0
        ==> exists|i: int| 0 <= i < comps.len() && (#[trigger] comps[i]).pixels@.contains(p)
    &&& forall|i: int, j: int| 0 <= i < j < comps.len() ==>
        (#[trigger] comps[i]).pixels@.len() > (#[trigger] comps[j]).pixels@.len()
        || (comps[i].pixels@.len() == comps[j].pixels@.len() && row_major_less(comps[i].pixels@[0], comps[j].pixels@[0]))
}

/// Copies a pixel list.
fn copy_pixels(ps: &Vec<Pixel>) -> (r: Vec<Pixel>)
    ensures
        r@ == ps@,
{
    let mut out: Vec<Pixel> = Vec::new();
    let mut k: usize = 0;
    while k < ps.len()
        invariant
            0 <= k <= ps@.len(),
            out@ == ps@.subrange(0, k as int),
        decreases ps@.len() - k,
    {
        let p = ps[k];
        out.push((p.0, p.1));
        assert(out@ =~= ps@.subrange(0, k + 1));
        k += 1;
    }
    assert(ps@.subrange(0, ps@.len() as int) =~= ps@);
    out
}

impl Clone for Component {
    fn clone(&self) -> (r: Component)
        ensures
            r.color == self.color,
            r.pixels@ == self.pixels@,
            r.bbox == self.bbox,
    {
        let pixels = copy_pixels(&self.pixels);
        let r = Component { color: self.color, pixels, bbox: (self.bbox.0, self.bbox.1, self.bbox.2, self.bbox.3) };
        assert(r.pixels@ == self.pixels@);
        r
    }
}

impl Component {
    /// The number of pixels.
    pub fn size(&self) -> (n: usize)
        ensures
            n == self.pixels@.len(),
    {
        self.pixels.len()
    }

    /// The width of the bounding box.
    pub fn width(&self) -> (n: usize)
        requires
            self.bbox.2 <= self.bbox.3,
            self.bbox.3 - self.bbox.2 < usize::MAX,
        ensures
            n == self.bbox.3 - self.bbox.2 + 1,
    {
        self.bbox.3 - self.bbox.2 + 1
    }

    /// The height of the bounding box.
    pub fn height(&self) -> (n: usize)
        requires
            self.bbox.0 <= self.bbox.1,
            self.bbox.1 - self.bbox.0 < usize::MAX,
        ensures
            n == self.bbox.1 - self.bbox.0 + 1,
    {
        self.bbox.1 - self.bbox.0 + 1
    }

    /// Whether the bounding box touches the border of a grid of the given size.
    pub fn touches_border(&self, grid_width: usize, grid_height: usize) -> (b: bool)
        requires
            self.bbox.0 != 0 ==> grid_height > 0,
            self.bbox.0 != 0 && self.bbox.1 != grid_height - 1 && self.bbox.2 != 0 ==> grid_width > 0,
        ensures
            b == (self.bbox.0 == 0 || self.bbox.1 == grid_height - 1 || self.bbox.2 == 0
                || self.bbox.3 == grid_width - 1),
    {
        self.bbox.0 == 0 || self.bbox.1 == grid_height - 1 || self.bbox.2 == 0 || self.bbox.3 == grid_width - 1
    }
}

/// The number of unmarked cells of a row.
pub open spec fn row_unmarked(s: Seq<bool>) -> nat
    decreases s.len(),
{
    if s.len() == 0 {
        0
    } else {
        row_unmarked(s.drop_last()) + (if s.last() { 0nat } else { 1nat })
    }
}

/// The number of unmarked cells in the first `n` rows.
pub open spec fn rows_unmarked(v: Seq<Seq<bool>>, n: int) -> nat
    decreases n,
{
    if n <= 0 {
        0
    } else {
        rows_unmarked(v, n - 1) + row_unmarked(v[n - 1])
    }
}

/// Marking an unmarked cell of a row leaves one unmarked cell fewer.
pub proof fn lemma_row_mark(s: Seq<bool>, k: int)
    requires
        0 <= k < s.len(),
        !s[k],
    ensures
        row_unmarked(s.update(k, true)) + 1 == row_unmarked(s),
    decreases s.len(),
{
    let t = s.update(k, true);
    if k < s.len() - 1 {
        lemma_row_mark(s.drop_last(), k);
        assert(t.drop_last() =~= s.drop_last().update(k, true));
    } else {
        assert(t.drop_last() =~= s.drop_last());
    }
}

/// Replacing row `i` changes the count by the difference of the row counts.
pub proof fn lemma_rows_replace(v: Seq<Seq<bool>>, n: int, i: int, row: Seq<bool>)
    requires
        0 <= i < v.len(),
        n <= v.len(),
    ensures
        i < n ==> rows_unmarked(v.update(i, row), n) + row_unmarked(v[i]) == rows_unmarked(v, n) + row_unmarked(row),
        i >= n ==> rows_unmarked(v.update(i, row), n) == rows_unmarked(v, n),
    decreases n,
{
    if n > 0 {
        lemma_rows_replace(v, n - 1, i, row);
    }
}

/// Marks cell `(r, c)`.
fn mark(visited: &mut Vec<Vec<bool>>, r: usize, c: usize)
    requires
        r < old(visited)@.len(),
        c < old(visited)@[r as int]@.len(),
    ensures
        final(visited)@.len() == old(visited)@.len(),
        forall|i: int| 0 <= i < old(visited)@.len() && i != r ==> #[trigger] final(visited)@[i] == old(visited)@[i],
        final(visited)@[r as int]@ == old(visited)@[r as int]@.update(c as int, true),
{
    visited[r][c] = true;
}

/// The marks of a visited-matrix as rows of booleans.
pub open spec fn marks(v: Seq<Vec<bool>>) -> Seq<Seq<bool>> {
    v.map_values(|r: Vec<bool>| r@)
}

/// Whether a pixel is marked.
pub open spec fn marked(m: Seq<Seq<bool>>, p: Pixel) -> bool {
    m[p.0 as int][p.1 as int]
}

/// The marks have `h` rows of `w` cells.
pub open spec fn mark_dims(m: Seq<Seq<bool>>, h: int, w: int) -> bool {
    m.len() == h && forall|i: int| 0 <= i < h ==> #[trigger] m[i].len() == w
}

/// Every same-colored neighbor of a marked pixel is marked.
pub open spec fn closed_marks(g: Seq<Seq<u8>>, m: Seq<Seq<bool>>) -> bool {
    forall|p: Pixel, q: Pixel| on_grid(g.len() as int, grid_width(g) as int, p)
        && on_grid(g.len() as int, grid_width(g) as int, q) && marked(m, p)
        && #[trigger] adjacent(p, q) && pix(g, q) == pix(g, p) ==> marked(m, q)
}

/// Some pixel of `ps` shares a side with `e`.
pub open spec fn has_neighbor_in(ps: Seq<Pixel>, e: Pixel) -> bool {
    exists|k: int| 0 <= k < ps.len() && #[trigger] adjacent(ps[k], e)
}

/// `m1` marks exactly what `m0` marks plus the pixels `ps`.
pub open spec fn marks_extend(m1: Seq<Seq<bool>>, m0: Seq<Seq<bool>>, ps: Seq<Pixel>, h: int, w: int) -> bool {
    &&& forall|p: Pixel| on_grid(h, w, p) && #[trigger] marked(m1, p) ==> marked(m0, p) || ps.contains(p)
    &&& forall|p: Pixel| on_grid(h, w, p) && #[trigger] marked(m0, p) ==> marked(m1, p)
    &&& forall|k: int| 0 <= k < ps.len() ==> marked(m1, #[trigger] ps[k])
}

/// The marks with pixel `p` marked.
pub open spec fn mark_at(m: Seq<Seq<bool>>, p: Pixel) -> Seq<Seq<bool>> {
    m.update(p.0 as int, m[p.0 as int].update(p.1 as int, true))
}

/// `s` with `p` pushed when `cond` holds.
pub open spec fn push_if(s: Seq<Pixel>, p: Pixel, cond: bool) -> Seq<Pixel> {
    if cond { s.push(p) } else { s }
}

/// The stack `s` after visiting `p`: each unmarked neighbor of `p` of the
/// color is pushed, in the order up, down, left, right.
pub open spec fn push_neighbors(g: Seq<Seq<u8>>, color: u8, m: Seq<Seq<bool>>, p: Pixel, s: Seq<Pixel>) -> Seq<Pixel> {
    let h = g.len() as int;
    let w = grid_width(g) as int;
    let up: Pixel = ((p.0 - 1) as usize, p.1);
    let down: Pixel = ((p.0 + 1) as usize, p.1);
    let left: Pixel = (p.0, (p.1 - 1) as usize);
    let right: Pixel = (p.0, (p.1 + 1) as usize);
    let s1 = push_if(s, up, p.0 >= 1 && !marked(m, up) && pix(g, up) == color);
    let s2 = push_if(s1, down, p.0 + 1 < h && !marked(m, down) && pix(g, down) == color);
    let s3 = push_if(s2, left, p.1 >= 1 && !marked(m, left) && pix(g, left) == color);
    push_if(s3, right, p.1 + 1 < w && !marked(m, right) && pix(g, right) == color)
}

/// The pixels a depth-first walk visits, in order, from the marks `m` and the
/// stack `s`: it pops the top pixel; a marked one is dropped; an unmarked one
/// is visited and marked, and its unmarked neighbors of the color are pushed.
#[verifier::opaque]
pub open spec fn dfs_order(g: Seq<Seq<u8>>, color: u8, m: Seq<Seq<bool>>, s: Seq<Pixel>) -> Seq<Pixel>
    decreases 4 * rows_unmarked(m, g.len() as int) + s.len()
        when mark_dims(m, g.len() as int, grid_width(g) as int)
            && forall|i: int| 0 <= i < s.len() ==> on_grid(g.len() as int, grid_width(g) as int, #[trigger] s[i])
{
    if s.len() == 0 {
        Seq::empty()
    } else {
        let p = s.last();
        let rest = s.drop_last();
        if marked(m, p) {
            dfs_order(g, color, m, rest)
        } else {
            let m1 = mark_at(m, p);
            proof {
                assert(on_grid(g.len() as int, grid_width(g) as int, s[s.len() - 1]));
                lemma_row_mark(m[p.0 as int], p.1 as int);
                lemma_rows_replace(m, g.len() as int, p.0 as int, m[p.0 as int].update(p.1 as int, true));
            }
            seq![p] + dfs_order(g, color, m1, push_neighbors(g, color, m1, p, rest))
        }
    }
}

/// A marked top of the stack is dropped.
proof fn lemma_dfs_skip(g: Seq<Seq<u8>>, color: u8, m: Seq<Seq<bool>>, s: Seq<Pixel>)
    requires
        mark_dims(m, g.len() as int, grid_width(g) as int),
        forall|i: int| 0 <= i < s.len() ==> on_grid(g.len() as int, grid_width(g) as int, #[trigger] s[i]),
        s.len() > 0,
        marked(m, s.last()),
    ensures
        dfs_order(g, color, m, s) == dfs_order(g, color, m, s.drop_last()),
{
    reveal(dfs_order);
}

/// An unmarked top of the stack is visited: marked, and its neighbors pushed.
proof fn lemma_dfs_visit(g: Seq<Seq<u8>>, color: u8, m: Seq<Seq<bool>>, s: Seq<Pixel>)
    requires
        mark_dims(m, g.len() as int, grid_width(g) as int),
        forall|i: int| 0 <= i < s.len() ==> on_grid(g.len() as int, grid_width(g) as int, #[trigger] s[i]),
        s.len() > 0,
        !marked(m, s.last()),
    ensures
        dfs_order(g, color, m, s) == seq![s.last()] + dfs_order(g, color, mark_at(m, s.last()),
            push_neighbors(g, color, mark_at(m, s.last()), s.last(), s.drop_last())),
{
    reveal(dfs_order);
}

/// The walk from an empty stack visits nothing.
proof fn lemma_dfs_empty(g: Seq<Seq<u8>>, color: u8, m: Seq<Seq<bool>>, s: Seq<Pixel>)
    requires
        mark_dims(m, g.len() as int, grid_width(g) as int),
        s.len() == 0,
    ensures
        dfs_order(g, color, m, s) == Seq::<Pixel>::empty(),
{
    reveal(dfs_order);
}

/// `h` rows of `w` unmarked cells.
pub open spec fn blank_marks(h: int, w: int) -> Seq<Seq<bool>> {
    Seq::new(h as nat, |i: int| Seq::new(w as nat, |j: int| false))
}

/// The order in which a depth-first walk from `start` over a grid with no
/// marks visits the region of the color of `start`.
pub open spec fn region_order(g: Seq<Seq<u8>>, start: Pixel) -> Seq<Pixel> {
    dfs_order(g, pix(g, start), blank_marks(g.len() as int, grid_width(g) as int), seq![start])
}

/// Marking `p` leaves every other pixel's mark as it was.
proof fn lemma_mark_at(m: Seq<Seq<bool>>, p: Pixel, q: Pixel, h: int, w: int)
    requires
        mark_dims(m, h, w),
        on_grid(h, w, p),
        on_grid(h, w, q),
    ensures
        marked(mark_at(m, p), q) == (q == p || marked(m, q)),
        mark_dims(mark_at(m, p), h, w),
{
    assert(m[p.0 as int].len() == w);
    assert(m[q.0 as int].len() == w);
}

/// The walk only reads the marks of the region it walks: two mark matrices
/// that agree on a closed region give the same order from a stack inside it.
proof fn lemma_dfs_same_on_region(g: Seq<Seq<u8>>, color: u8, m: Seq<Seq<bool>>, m2: Seq<Seq<bool>>,
    s: Seq<Pixel>, ps: Seq<Pixel>)
    requires
        g.len() <= usize::MAX,
        grid_width(g) <= usize::MAX,
        mark_dims(m, g.len() as int, grid_width(g) as int),
        mark_dims(m2, g.len() as int, grid_width(g) as int),
        forall|i: int| 0 <= i < s.len() ==> on_grid(g.len() as int, grid_width(g) as int, #[trigger] s[i])
            && ps.contains(s[i]),
        forall|k: int| 0 <= k < ps.len() ==> on_grid(g.len() as int, grid_width(g) as int, #[trigger] ps[k]),
        closed_region(g, ps, color),
        forall|p: Pixel| #[trigger] ps.contains(p) ==> marked(m, p) == marked(m2, p),
    ensures
        dfs_order(g, color, m, s) == dfs_order(g, color, m2, s),
    decreases 4 * rows_unmarked(m, g.len() as int) + s.len(),
{
    let h = g.len() as int;
    let w = grid_width(g) as int;
    if s.len() == 0 {
        lemma_dfs_empty(g, color, m, s);
        lemma_dfs_empty(g, color, m2, s);
    } else {
        let p = s.last();
        let rest = s.drop_last();
        assert(on_grid(h, w, s[s.len() - 1]) && ps.contains(s[s.len() - 1]));
        assert forall|i: int| 0 <= i < rest.len() implies on_grid(h, w, #[trigger] rest[i]) && ps.contains(rest[i]) by {
            assert(rest[i] == s[i]);
        }
        if marked(m, p) {
            lemma_dfs_skip(g, color, m, s);
            lemma_dfs_skip(g, color, m2, s);
            lemma_dfs_same_on_region(g, color, m, m2, rest, ps);
        } else {
            lemma_dfs_visit(g, color, m, s);
            lemma_dfs_visit(g, color, m2, s);
            let m1 = mark_at(m, p);
            let n1 = mark_at(m2, p);
            lemma_row_mark(m[p.0 as int], p.1 as int);
            lemma_rows_replace(m, h, p.0 as int, m[p.0 as int].update(p.1 as int, true));
            lemma_mark_at(m, p, p, h, w);
            lemma_mark_at(m2, p, p, h, w);
            assert forall|q: Pixel| #[trigger] ps.contains(q) implies marked(m1, q) == marked(n1, q) by {
                let k = choose|k: int| 0 <= k < ps.len() && ps[k] == q;
                assert(on_grid(h, w, ps[k]));
                lemma_mark_at(m, p, q, h, w);
                lemma_mark_at(m2, p, q, h, w);
            }
            let kp = choose|k: int| 0 <= k < ps.len() && ps[k] == p;
            let up: Pixel = ((p.0 - 1) as usize, p.1);
            let down: Pixel = ((p.0 + 1) as usize, p.1);
            let left: Pixel = (p.0, (p.1 - 1) as usize);
            let right: Pixel = (p.0, (p.1 + 1) as usize);
            assert(p.0 >= 1 && pix(g, up) == color ==> ps.contains(up)) by {
                if p.0 >= 1 && pix(g, up) == color { assert(adjacent(ps[kp], up)); }
            }
            assert(p.0 + 1 < h && pix(g, down) == color ==> ps.contains(down)) by {
                if p.0 + 1 < h && pix(g, down) == color { assert(adjacent(ps[kp], down)); }
            }
            assert(p.1 >= 1 && pix(g, left) == color ==> ps.contains(left)) by {
                if p.1 >= 1 && pix(g, left) == color { assert(adjacent(ps[kp], left)); }
            }
            assert(p.1 + 1 < w && pix(g, right) == color ==> ps.contains(right)) by {
                if p.1 + 1 < w && pix(g, right) == color { assert(adjacent(ps[kp], right)); }
            }
            let t = push_neighbors(g, color, m1, p, rest);
            assert(t == push_neighbors(g, color, n1, p, rest));
            assert forall|i: int| 0 <= i < t.len() implies on_grid(h, w, #[trigger] t[i]) && ps.contains(t[i]) by {
                if i >= rest.len() {
                    assert(t[i] == up || t[i] == down || t[i] == left || t[i] == right);
                } else {
                    assert(t[i] == rest[i]);
                }
            }
            lemma_dfs_same_on_region(g, color, m1, n1, t, ps);
        }
    }
}

/// Pushes the unmarked neighbors of `(cr, cc)` of the color onto the stack:
/// up, down, left, right.
fn push_fresh_neighbors(grid: &ArcGrid, visited: &Vec<Vec<bool>>, stack: &mut Vec<Pixel>, cr: usize, cc: usize, color: u8)
    requires
        grid.wf(),
        cr < grid.height,
        cc < grid.width,
        mark_dims(marks(visited@), grid.height as int, grid.width as int),
    ensures
        final(stack)@ == push_neighbors(grid@, color, marks(visited@), (cr, cc), old(stack)@),
        final(stack)@.len() <= old(stack)@.len() + 4,
        forall|i: int| 0 <= i < old(stack)@.len() ==> #[trigger] final(stack)@[i] == old(stack)@[i],
        forall|i: int| old(stack)@.len() <= i < final(stack)@.len() ==>
            on_grid(grid.height as int, grid.width as int, #[trigger] final(stack)@[i])
            && pix(grid@, final(stack)@[i]) == color && adjacent((cr, cc), final(stack)@[i]),
        forall|q: Pixel| on_grid(grid.height as int, grid.width as int, q) && #[trigger] adjacent((cr, cc), q)
            && !marked(marks(visited@), q) && pix(grid@, q) == color ==> final(stack)@.contains(q),
{
    let h = grid.height;
    let w = grid.width;
    let ghost g = grid@;
    let ghost m = marks(visited@);
    let ghost s1 = stack@;
    let ghost up: Pixel = ((cr - 1) as usize, cc);
    let ghost down: Pixel = ((cr + 1) as usize, cc);
    let ghost left: Pixel = (cr, (cc - 1) as usize);
    let ghost right: Pixel = (cr, (cc + 1) as usize);
    assert(g.len() == h && grid_width(g) == w);
    assert(m[cr as int].len() == w && visited@[cr as int]@ == m[cr as int]);
    if cr >= 1 {
        assert(m[cr - 1].len() == w && visited@[cr - 1]@ == m[cr - 1]);
    }
    if cr + 1 < h {
        assert(m[cr + 1].len() == w && visited@[cr + 1]@ == m[cr + 1]);
    }
    if cr >= 1 && !visited[cr - 1][cc] && cell(grid, cr - 1, cc) == color {
        stack.push((cr - 1, cc));
    }
    let ghost s2 = stack@;
    assert(s2 == push_if(s1, up, cr >= 1 && !marked(m, up) && pix(g, up) == color));
    if cr + 1 < h && !visited[cr + 1][cc] && cell(grid, cr + 1, cc) == color {
        stack.push((cr + 1, cc));
    }
    let ghost s3 = stack@;
    assert(s3 == push_if(s2, down, cr + 1 < h && !marked(m, down) && pix(g, down) == color));
    if cc >= 1 && !visited[cr][cc - 1] && cell(grid, cr, cc - 1) == color {
        stack.push((cr, cc - 1));
    }
    let ghost s4 = stack@;
    assert(s4 == push_if(s3, left, cc >= 1 && !marked(m, left) && pix(g, left) == color));
    if cc + 1 < w && !visited[cr][cc + 1] && cell(grid, cr, cc + 1) == color {
        stack.push((cr, cc + 1));
    }
    let ghost s5 = stack@;
    assert(s5 == push_if(s4, right, cc + 1 < w && !marked(m, right) && pix(g, right) == color));
    assert forall|q: Pixel| on_grid(h as int, w as int, q) && #[trigger] adjacent((cr, cc), q)
        && !marked(m, q) && pix(g, q) == color implies s5.contains(q) by {
        if q.0 + 1 == cr {
            assert(q == up);
            assert(s2[s2.len() - 1] == up);
            assert(s5[s2.len() - 1] == up);
        } else if q.0 == cr + 1 {
            assert(q == down);
            assert(s3[s3.len() - 1] == down);
            assert(s5[s3.len() - 1] == down);
        } else if q.1 + 1 == cc {
            assert(q == left);
            assert(s4[s4.len() - 1] == left);
            assert(s5[s4.len() - 1] == left);
        } else {
            assert(q == right);
            assert(s5[s5.len() - 1] == right);
        }
    }
}

/// Visits the 4-connected region of the color of `(sr, sc)` starting there,
/// depth first, marking its pixels; returns them in visiting order.
#[verifier::rlimit(100)]
#[verifier::spinoff_prover]
fn flood(grid: &ArcGrid, visited: &mut Vec<Vec<bool>>, sr: usize, sc: usize) -> (pixels: Vec<Pixel>)
    requires
        grid.wf(),
        mark_dims(marks(old(visited)@), grid.height as int, grid.width as int),
        sr < grid.height,
        sc < grid.width,
        !marked(marks(old(visited)@), (sr, sc)),
        pix(grid@, (sr, sc)) != 0,
        closed_marks(grid@, marks(old(visited)@)),
    ensures
        mark_dims(marks(final(visited)@), grid.height as int, grid.width as int),
        marks_extend(marks(final(visited)@), marks(old(visited)@), pixels@, grid.height as int, grid.width as int),
        pixels@.len() > 0,
        pixels@[0] == (sr, sc),
        pixels@.no_duplicates(),
        forall|k: int| 0 <= k < pixels@.len() ==> on_grid(grid.height as int, grid.width as int, #[trigger] pixels@[k])
            && pix(grid@, pixels@[k]) == pix(grid@, (sr, sc)) && !marked(marks(old(visited)@), pixels@[k]),
        connected_order(pixels@),
        closed_region(grid@, pixels@, pix(grid@, (sr, sc))),
        closed_marks(grid@, marks(final(visited)@)),
        pixels@ == dfs_order(grid@, pix(grid@, (sr, sc)), marks(old(visited)@), seq![(sr, sc)]),
{
    let h = grid.height;
    let w = grid.width;
    let ghost g = grid@;
    let ghost m0 = marks(visited@);
    let color = cell(grid, sr, sc);
    let mut pixels: Vec<Pixel> = Vec::new();
    let mut stack: Vec<Pixel> = Vec::new();
    stack.push((sr, sc));
    assert(stack@ =~= seq![(sr, sc)]);
    assert(pixels@ + dfs_order(g, color, m0, stack@) =~= dfs_order(g, color, m0, seq![(sr, sc)]));
    while stack.len() > 0
        invariant
            grid.wf(), g == grid@, h == grid.height, w == grid.width,
            sr < h, sc < w, color == pix(g, (sr, sc)), color != 0,
            !marked(m0, (sr, sc)),
            closed_marks(g, m0),
            mark_dims(m0, h as int, w as int),
            mark_dims(marks(visited@), h as int, w as int),
            marks_extend(marks(visited@), m0, pixels@, h as int, w as int),
            pixels@.no_duplicates(),
            forall|k: int| 0 <= k < pixels@.len() ==> on_grid(h as int, w as int, #[trigger] pixels@[k])
                && pix(g, pixels@[k]) == color && !marked(m0, pixels@[k]),
            pixels@.len() > 0 ==> pixels@[0] == (sr, sc),
            pixels@.len() == 0 ==> stack@ == seq![(sr, sc)],
            pixels@ + dfs_order(g, color, marks(visited@), stack@) == dfs_order(g, color, m0, seq![(sr, sc)]),
            connected_order(pixels@),
            forall|i: int| 0 <= i < stack@.len() ==> on_grid(h as int, w as int, #[trigger] stack@[i]) && pix(g, stack@[i]) == color,
            pixels@.len() > 0 ==> forall|i: int| 0 <= i < stack@.len() ==> has_neighbor_in(pixels@, #[trigger] stack@[i]),
            forall|k: int, q: Pixel| 0 <= k < pixels@.len() && on_grid(h as int, w as int, q)
                && #[trigger] adjacent(pixels@[k], q) && pix(g, q) == color
                ==> marked(marks(visited@), q) || stack@.contains(q),
        decreases 4 * rows_unmarked(marks(visited@), h as int) + stack@.len(),
    {
        let ghost s0 = stack@;
        let ghost v0 = marks(visited@);
        let ghost px0 = pixels@;
        let top = match stack.pop() {
            Some(t) => t,
            None => { return pixels; },
        };
        let cr = top.0;
        let cc = top.1;
        assert(s0 == stack@.push(top));
        assert(s0[s0.len() - 1] == top);
        assert(on_grid(h as int, w as int, top));
        assert(v0[cr as int].len() == w);
        if visited[cr][cc] {
            assert(marked(v0, top));
            assert(dfs_order(g, color, v0, s0) == dfs_order(g, color, v0, stack@)) by {
                assert(g.len() == h && grid_width(g) == w);
                assert(s0.drop_last() =~= stack@);
                assert(s0.last() == top);
                lemma_dfs_skip(g, color, v0, s0);
            }
            proof {
                if px0.len() == 0 {
                    assert(top == (sr, sc));
                    assert(!px0.contains(top));
                }
            }
            assert forall|k: int, q: Pixel| 0 <= k < pixels@.len() && on_grid(h as int, w as int, q)
                && #[trigger] adjacent(pixels@[k], q) && pix(g, q) == color
                implies marked(marks(visited@), q) || stack@.contains(q) by {
                if !marked(marks(visited@), q) {
                    assert(s0.contains(q));
                    let idx = choose|idx: int| 0 <= idx < s0.len() && s0[idx] == q;
                    if idx < s0.len() - 1 {
                        assert(stack@[idx] == q);
                    }
                }
            }
            assert forall|i: int| 0 <= i < stack@.len() implies on_grid(h as int, w as int, #[trigger] stack@[i]) && pix(g, stack@[i]) == color by {
                assert(stack@[i] == s0[i]);
            }
            assert(px0.len() > 0);
            assert forall|i: int| 0 <= i < stack@.len() implies has_neighbor_in(pixels@, #[trigger] stack@[i]) by {
                assert(stack@[i] == s0[i]);
                assert(has_neighbor_in(px0, s0[i]));
            }
            continue;
        }
        // Visit (cr, cc).
        proof {
            if px0.len() > 0 {
                assert(has_neighbor_in(px0, s0[s0.len() - 1]));
            } else {
                assert(top == (sr, sc));
            }
        }
        proof {
            lemma_row_mark(v0[cr as int], cc as int);
            lemma_rows_replace(v0, h as int, cr as int, v0[cr as int].update(cc as int, true));
        }
        mark(visited, cr, cc);
        assert(marks(visited@) =~= v0.update(cr as int, v0[cr as int].update(cc as int, true)));
        pixels.push((cr, cc));
        let ghost s1 = stack@;
        let ghost v1 = marks(visited@);
        assert(visited@.len() == h);
        assert forall|i: int| 0 <= i < h implies #[trigger] visited@[i]@.len() == w by {
            assert(visited@[i]@ == v1[i]);
        }
        push_fresh_neighbors(grid, &visited, &mut stack, cr, cc, color);
        let ghost s5 = stack@;
        assert(pixels@ + dfs_order(g, color, v1, s5) == dfs_order(g, color, m0, seq![(sr, sc)])) by {
            assert(g.len() == h && grid_width(g) == w);
            assert(s0.drop_last() =~= s1);
            assert(s0.last() == top);
            assert(v1 == mark_at(v0, top));
            lemma_dfs_visit(g, color, v0, s0);
            assert(dfs_order(g, color, v0, s0) == seq![top] + dfs_order(g, color, v1, s5));
            assert(pixels@ + dfs_order(g, color, v1, s5) =~= px0 + (seq![top] + dfs_order(g, color, v1, s5)));
        }
        proof {
            let px1 = pixels@;
            assert(px1 == px0.push(top));
            // Pixels stay distinct, on the grid, of the color, and fresh.
            assert(!px0.contains(top));
            assert forall|a: int, b: int| 0 <= a < px1.len() && 0 <= b < px1.len() && a != b implies px1[a] != px1[b] by {
                if a == px1.len() - 1 { assert(px1[b] == px0[b]); assert(px0.contains(px0[b])); }
                else if b == px1.len() - 1 { assert(px1[a] == px0[a]); assert(px0.contains(px0[a])); }
            }
            assert forall|p: Pixel| on_grid(h as int, w as int, p) && #[trigger] marked(v1, p) implies marked(m0, p) || px1.contains(p) by {
                if p == top {
                    assert(px1[px1.len() - 1] == p);
                } else {
                    assert(marked(v0, p));
                    if !marked(m0, p) {
                        assert(px0.contains(p));
                        let i0 = choose|i0: int| 0 <= i0 < px0.len() && px0[i0] == p;
                        assert(px1[i0] == p);
                    }
                }
            }
            assert forall|p: Pixel| on_grid(h as int, w as int, p) && #[trigger] marked(m0, p) implies marked(v1, p) by {
                assert(marked(v0, p));
            }
            assert forall|k: int| 0 <= k < px1.len() implies marked(v1, #[trigger] px1[k]) by {
                if k < px0.len() {
                    assert(px1[k] == px0[k]);
                    assert(marked(v0, px0[k]));
                }
            }
            // Connectivity.
            assert forall|k: int| 0 < k < px1.len() implies #[trigger] has_earlier_neighbor(px1, k) by {
                if k < px0.len() {
                    assert(has_earlier_neighbor(px0, k));
                    let l = choose|l: int| 0 <= l < k && #[trigger] adjacent(px0[l], px0[k]);
                    assert(adjacent(px1[l], px1[k]));
                } else {
                    assert(has_neighbor_in(px0, s0[s0.len() - 1]));
                    let k0 = choose|k0: int| 0 <= k0 < px0.len() && #[trigger] adjacent(px0[k0], s0[s0.len() - 1]);
                    assert(adjacent(px1[k0], px1[k]));
                }
            }
            // The stack holds pixels of the color next to visited ones.
            assert forall|i: int| 0 <= i < stack@.len() implies on_grid(h as int, w as int, #[trigger] stack@[i]) && pix(g, stack@[i]) == color by {
                if i < s1.len() { assert(stack@[i] == s1[i]); assert(s1[i] == s0[i]); }
            }
            assert forall|i: int| 0 <= i < stack@.len() implies has_neighbor_in(px1, #[trigger] stack@[i]) by {
                if i < s1.len() {
                    assert(stack@[i] == s1[i]);
                    assert(s1[i] == s0[i]);
                    assert(has_neighbor_in(px0, s0[i]));
                    let k0 = choose|k0: int| 0 <= k0 < px0.len() && #[trigger] adjacent(px0[k0], s0[i]);
                    assert(adjacent(px1[k0], stack@[i]));
                } else {
                    assert(adjacent(px1[px1.len() - 1], stack@[i]));
                }
            }
            // Frontier: every same-colored neighbor of a visited pixel is marked or waiting.
            assert forall|k: int, q: Pixel| 0 <= k < px1.len() && on_grid(h as int, w as int, q)
                && #[trigger] adjacent(px1[k], q) && pix(g, q) == color
                implies marked(v1, q) || stack@.contains(q) by {
                if !marked(v1, q) {
                    if k < px0.len() {
                        assert(adjacent(px0[k], q));
                        assert(!marked(v0, q));
                        assert(s0.contains(q));
                        let idx = choose|idx: int| 0 <= idx < s0.len() && s0[idx] == q;
                        if idx == s0.len() - 1 {
                            assert(q == top);
                        } else {
                            assert(stack@[idx] == q);
                        }
                    } else {
                        assert(px1[k] == top);
                    }
                }
            }
        }
    }
    proof {
        let v1 = marks(visited@);
        let px = pixels@;
        assert(px.len() > 0);
        assert(g.len() == h && grid_width(g) == w);
        lemma_dfs_empty(g, color, v1, stack@);
        assert(px + Seq::<Pixel>::empty() =~= px);
        assert forall|k: int, q: Pixel| 0 <= k < px.len() && on_grid(g.len() as int, grid_width(g) as int, q)
            && #[trigger] adjacent(px[k], q) && pix(g, q) == color implies px.contains(q) by {
            assert(marked(v1, q));
            if marked(m0, q) {
                assert(adjacent(q, px[k]));
                assert(marked(m0, px[k]));
            }
        }
        assert forall|p: Pixel, q: Pixel| on_grid(g.len() as int, grid_width(g) as int, p)
            && on_grid(g.len() as int, grid_width(g) as int, q) && marked(v1, p)
            && #[trigger] adjacent(p, q) && pix(g, q) == pix(g, p) implies marked(v1, q) by {
            if !marked(m0, p) {
                let k = choose|k: int| 0 <= k < px.len() && px[k] == p;
                assert(adjacent(px[k], q));
                assert(px.contains(q));
                let k2 = choose|k2: int| 0 <= k2 < px.len() && px[k2] == q;
                assert(marked(v1, px[k2]));
            } else {
                assert(marked(m0, q));
            }
        }
    }
    pixels
}

/// The bounding box of a non-empty pixel list: `(min row, max row, min column, max column)`.
fn bbox_of(pixels: &Vec<Pixel>, h: usize, w: usize) -> (b: (usize, usize, usize, usize))
    requires
        pixels@.len() > 0,
        forall|k: int| 0 <= k < pixels@.len() ==> on_grid(h as int, w as int, #[trigger] pixels@[k]),
    ensures
        is_bbox(pixels@, b),
{
    let ps = pixels;
    let mut min_r = h;
    let mut max_r: usize = 0;
    let mut min_c = w;
    let mut max_c: usize = 0;
    let ghost mut i0: int = 0;
    let ghost mut i1: int = 0;
    let ghost mut i2: int = 0;
    let ghost mut i3: int = 0;
    let mut k: usize = 0;
    while k < ps.len()
        invariant
            ps@.len() > 0,
            forall|k: int| 0 <= k < ps@.len() ==> on_grid(h as int, w as int, #[trigger] ps@[k]),
            0 <= k <= ps@.len(),
            forall|j: int| 0 <= j < k ==> min_r <= (#[trigger] ps@[j]).0 <= max_r && min_c <= ps@[j].1 <= max_c,
            k > 0 ==> 0 <= i0 < k && ps@[i0].0 == min_r,
            k > 0 ==> 0 <= i1 < k && ps@[i1].0 == max_r,
            k > 0 ==> 0 <= i2 < k && ps@[i2].1 == min_c,
            k > 0 ==> 0 <= i3 < k && ps@[i3].1 == max_c,
            k == 0 ==> min_r == h && max_r == 0 && min_c == w && max_c == 0,
        decreases ps@.len() - k,
    {
        let p = ps[k];
        if k == 0 || p.0 < min_r {
            min_r = p.0;
            proof { i0 = k as int; }
        }
        if k == 0 || p.0 > max_r {
            max_r = p.0;
            proof { i1 = k as int; }
        }
        if k == 0 || p.1 < min_c {
            min_c = p.1;
            proof { i2 = k as int; }
        }
        if k == 0 || p.1 > max_c {
            max_c = p.1;
            proof { i3 = k as int; }
        }
        k += 1;
    }
    (min_r, max_r, min_c, max_c)
}

/// Cell `p` comes before position `(r, c)` in row-major order.
pub open spec fn before_pos(p: Pixel, r: int, c: int) -> bool {
    p.0 < r || (p.0 == r && p.1 < c)
}

/// A fresh visited-matrix of `h` rows of `w` unmarked cells.
fn fresh_marks(h: usize, w: usize) -> (v: Vec<Vec<bool>>)
    ensures
        mark_dims(marks(v@), h as int, w as int),
        forall|p: Pixel| on_grid(h as int, w as int, p) ==> !#[trigger] marked(marks(v@), p),
{
    let mut v: Vec<Vec<bool>> = Vec::new();
    let mut i: usize = 0;
    while i < h
        invariant
            0 <= i <= h,
            v@.len() == i,
            forall|k: int| 0 <= k < i ==> #[trigger] v@[k]@.len() == w,
            forall|k: int, j: int| 0 <= k < i && 0 <= j < w ==> !#[trigger] v@[k]@[j],
        decreases h - i,
    {
        let mut row: Vec<bool> = Vec::new();
        let mut j: usize = 0;
        while j < w
            invariant
                0 <= j <= w,
                row@.len() == j,
                forall|l: int| 0 <= l < j ==> !#[trigger] row@[l],
            decreases w - j,
        {
            row.push(false);
            j += 1;
        }
        v.push(row);
        i += 1;
    }
    v
}

/// The components found so far in a row-major scan that has reached `(r, c)`:
/// each is a component, they are disjoint, their first pixels come in scan
/// order before `(r, c)`, and the marks hold exactly their pixels.
pub open spec fn scan_state(g: Seq<Seq<u8>>, m: Seq<Seq<bool>>, comps: Seq<Component>, r: int, c: int) -> bool {
    let h = g.len() as int;
    let w = grid_width(g) as int;
    &&& mark_dims(m, h, w)
    &&& closed_marks(g, m)
    &&& forall|i: int| 0 <= i < comps.len() ==> is_component(g, #[trigger] comps[i])
    &&& forall|p: Pixel| on_grid(h, w, p) && #[trigger] marked(m, p) ==>
        exists|i: int| 0 <= i < comps.len() && (#[trigger] comps[i]).pixels@.contains(p)
    &&& forall|i: int, k: int| 0 <= i < comps.len() && 0 <= k < comps[i].pixels@.len() ==>
        marked(m, #[trigger] comps[i].pixels@[k])
    &&& forall|p: Pixel| on_grid(h, w, p) && before_pos(p, r, c) && #[trigger] pix(g, p) != 0 ==> marked(m, p)
    &&& forall|i: int, j: int, p: Pixel| 0 <= i < comps.len() && 0 <= j < comps.len() && i != j
        && #[trigger] comps[i].pixels@.contains(p) ==> !(#[trigger] comps[j].pixels@.contains(p))
    &&& forall|i: int, j: int| 0 <= i < j < comps.len() ==>
        row_major_less((#[trigger] comps[i]).pixels@[0], (#[trigger] comps[j]).pixels@[0])
    &&& forall|i: int| 0 <= i < comps.len() ==> before_pos((#[trigger] comps[i]).pixels@[0], r, c)
}

/// The components of a grid in the order of their first pixels.
#[verifier::rlimit(100)]
#[verifier::spinoff_prover]
fn scan_components(grid: &ArcGrid) -> (comps: Vec<Component>)
    requires
        grid.wf(),
        grid.height > 0,
        grid.width > 0,
    ensures
        forall|i: int| 0 <= i < comps@.len() ==> is_component(grid@, #[trigger] comps@[i]),
        forall|i: int, j: int, p: Pixel| 0 <= i < comps@.len() && 0 <= j < comps@.len() && i != j
            && #[trigger] comps@[i].pixels@.contains(p) ==> !(#[trigger] comps@[j].pixels@.contains(p)),
        forall|p: Pixel| on_grid(grid.height as int, grid.width as int, p) && #[trigger] pix(grid@, p) != 0
            ==> exists|i: int| 0 <= i < comps@.len() && (#[trigger] comps@[i]).pixels@.contains(p),
        forall|i: int, j: int| 0 <= i < j < comps@.len() ==>
            row_major_less((#[trigger] comps@[i]).pixels@[0], (#[trigger] comps@[j]).pixels@[0]),
{
    let h = grid.height;
    let w = grid.width;
    let ghost g = grid@;
    let mut visited = fresh_marks(h, w);
    let mut comps: Vec<Component> = Vec::new();
    let mut r: usize = 0;
    while r < h
        invariant
            grid.wf(), g == grid@, h == grid.height, w == grid.width, h > 0, w > 0,
            0 <= r <= h,
            scan_state(g, marks(visited@), comps@, r as int, 0),
        decreases h - r,
    {
        let mut c: usize = 0;
        assert forall|p: Pixel| on_grid(h as int, w as int, p) && before_pos(p, r as int, 0) && #[trigger] pix(g, p) != 0
            implies marked(marks(visited@), p) by {}
        while c < w
            invariant
                grid.wf(), g == grid@, h == grid.height, w == grid.width, h > 0, w > 0,
                0 <= r < h,
                0 <= c <= w,
                scan_state(g, marks(visited@), comps@, r as int, c as int),
            decreases w - c,
        {
            let ghost m0 = marks(visited@);
            let ghost c0 = comps@;
            assert(m0[r as int].len() == w);
            assert(visited@[r as int]@ == m0[r as int]);
            if visited[r][c] || cell(grid, r, c) == 0 {
                assert forall|p: Pixel| on_grid(h as int, w as int, p) && before_pos(p, r as int, c + 1) && #[trigger] pix(g, p) != 0
                    implies marked(m0, p) by {
                    if p != (r, c) { assert(before_pos(p, r as int, c as int)); }
                }
                c += 1;
                continue;
            }
            let color = cell(grid, r, c);
            let pixels = flood(grid, &mut visited, r, c);
            let bbox = bbox_of(&pixels, h, w);
            let comp = Component { color, pixels, bbox };
            proof {
                let ps = comp.pixels@;
                let m1 = marks(visited@);
                // Fresh pixels come after (r, c) in row-major order.
                assert forall|k: int| 0 < k < ps.len() implies row_major_less(ps[0], #[trigger] ps[k]) by {
                    assert(!marked(m0, ps[k]));
                    assert(ps[k] != ps[0]);
                    if before_pos(ps[k], r as int, c as int) {
                        assert(pix(g, ps[k]) != 0);
                    }
                }
                assert forall|k: int, q: Pixel| 0 <= k < ps.len() && on_grid(g.len() as int, grid_width(g) as int, q)
                    && #[trigger] adjacent(ps[k], q) && pix(g, q) == comp.color implies ps.contains(q) by {}
                // The walk from (r, c) reads only marks of its own region, all unmarked.
                assert(ps == region_order(g, ps[0])) by {
                    let blank = blank_marks(h as int, w as int);
                    assert(g.len() == h && grid_width(g) == w);
                    assert(mark_dims(blank, h as int, w as int));
                    assert(ps.contains(ps[0]));
                    assert forall|p: Pixel| #[trigger] ps.contains(p) implies marked(m0, p) == marked(blank, p) by {
                        let k = choose|k: int| 0 <= k < ps.len() && ps[k] == p;
                        assert(!marked(m0, ps[k]));
                        assert(on_grid(h as int, w as int, ps[k]));
                    }
                    lemma_dfs_same_on_region(g, color, m0, blank, seq![(r, c)], ps);
                }
                assert(is_component(g, comp));
            }
            comps.push(comp);
            proof {
                let cs = comps@;
                let ps = cs[cs.len() - 1].pixels@;
                let m1 = marks(visited@);
                assert(cs == c0.push(comp));
                assert forall|i: int| 0 <= i < cs.len() implies is_component(g, #[trigger] cs[i]) by {
                    if i < c0.len() { assert(cs[i] == c0[i]); }
                }
                assert forall|p: Pixel| on_grid(h as int, w as int, p) && #[trigger] marked(m1, p) implies
                    exists|i: int| 0 <= i < cs.len() && (#[trigger] cs[i]).pixels@.contains(p) by {
                    if marked(m0, p) {
                        let i = choose|i: int| 0 <= i < c0.len() && (#[trigger] c0[i]).pixels@.contains(p);
                        assert(cs[i] == c0[i]);
                    } else {
                        assert(ps.contains(p));
                        assert(cs[cs.len() - 1].pixels@.contains(p));
                    }
                }
                assert forall|i: int, k: int| 0 <= i < cs.len() && 0 <= k < cs[i].pixels@.len() implies
                    marked(m1, #[trigger] cs[i].pixels@[k]) by {
                    if i < c0.len() {
                        assert(cs[i] == c0[i]);
                        assert(marked(m0, c0[i].pixels@[k]));
                    }
                }
                assert forall|p: Pixel| on_grid(h as int, w as int, p) && before_pos(p, r as int, c + 1) && #[trigger] pix(g, p) != 0
                    implies marked(m1, p) by {
                    if p == (r, c) {
                        assert(ps[0] == p);
                    } else {
                        assert(before_pos(p, r as int, c as int));
                        assert(marked(m0, p));
                    }
                }
                assert forall|i: int, j: int, p: Pixel| 0 <= i < cs.len() && 0 <= j < cs.len() && i != j
                    && #[trigger] cs[i].pixels@.contains(p) implies !(#[trigger] cs[j].pixels@.contains(p)) by {
                    if i < c0.len() && j < c0.len() {
                        assert(cs[i] == c0[i] && cs[j] == c0[j]);
                    } else if i < c0.len() {
                        assert(cs[i] == c0[i]);
                        let k = choose|k: int| 0 <= k < c0[i].pixels@.len() && c0[i].pixels@[k] == p;
                        assert(marked(m0, c0[i].pixels@[k]));
                        if cs[j].pixels@.contains(p) {
                            let k2 = choose|k2: int| 0 <= k2 < ps.len() && ps[k2] == p;
                            assert(!marked(m0, ps[k2]));
                        }
                    } else {
                        assert(cs[j] == c0[j]);
                        let k2 = choose|k2: int| 0 <= k2 < ps.len() && ps[k2] == p;
                        assert(!marked(m0, ps[k2]));
                        if cs[j].pixels@.contains(p) {
                            let k = choose|k: int| 0 <= k < c0[j].pixels@.len() && c0[j].pixels@[k] == p;
                            assert(marked(m0, c0[j].pixels@[k]));
                        }
                    }
                }
                assert forall|i: int, j: int| 0 <= i < j < cs.len() implies
                    row_major_less((#[trigger] cs[i]).pixels@[0], (#[trigger] cs[j]).pixels@[0]) by {
                    assert(cs[i] == c0[i]);
                    if j < c0.len() { assert(cs[j] == c0[j]); }
                    else { assert(before_pos(c0[i].pixels@[0], r as int, c as int)); }
                }
                assert forall|i: int| 0 <= i < cs.len() implies before_pos((#[trigger] cs[i]).pixels@[0], r as int, c + 1) by {
                    if i < c0.len() { assert(cs[i] == c0[i]); assert(before_pos(c0[i].pixels@[0], r as int, c as int)); }
                }
            }
            c += 1;
        }
        assert forall|p: Pixel| on_grid(h as int, w as int, p) && before_pos(p, r + 1, 0) && #[trigger] pix(g, p) != 0
            implies marked(marks(visited@), p) by {
            if p.0 < r { assert(before_pos(p, r as int, w as int)); }
            else { assert(before_pos(p, r as int, w as int)); }
        }
        assert forall|i: int| 0 <= i < comps@.len() implies before_pos((#[trigger] comps@[i]).pixels@[0], r + 1, 0) by {
            assert(before_pos(comps@[i].pixels@[0], r as int, w as int));
        }
        r += 1;
    }
    proof {
        let m = marks(visited@);
        assert forall|p: Pixel| on_grid(grid.height as int, grid.width as int, p) && #[trigger] pix(grid@, p) != 0
            implies exists|i: int| 0 <= i < comps@.len() && (#[trigger] comps@[i]).pixels@.contains(p) by {
            assert(before_pos(p, h as int, 0));
            assert(marked(m, p));
        }
    }
    comps
}

/// Some position of `perm` holds `idx`.
pub open spec fn covers(perm: Seq<int>, idx: int) -> bool {
    exists|k: int| 0 <= k < perm.len() && perm[k] == idx
}

/// `s` lists the items of `o` in the order `perm`, each once.
pub open spec fn permuted(s: Seq<Component>, o: Seq<Component>, perm: Seq<int>) -> bool {
    &&& perm.len() == o.len()
    &&& s.len() == o.len()
    &&& forall|k: int| 0 <= k < perm.len() ==> 0 <= #[trigger] perm[k] < o.len() && s[k] == o[perm[k]]
    &&& forall|a: int, b: int| 0 <= a < b < perm.len() ==> #[trigger] perm[a] != #[trigger] perm[b]
    &&& forall|idx: int| 0 <= idx < o.len() ==> #[trigger] covers(perm, idx)
}

/// `a` comes before `b` in the component order: larger first, equal sizes by first pixel.
pub open spec fn comes_before(a: Component, b: Component) -> bool {
    a.pixels@.len() > b.pixels@.len()
        || (a.pixels@.len() == b.pixels@.len() && row_major_less(a.pixels@[0], b.pixels@[0]))
}

/// Sorts components largest first, keeping the given order among equal sizes;
/// the input's first pixels come in strictly increasing row-major order.
fn sort_by_size(comps: Vec<Component>) -> (sorted: Vec<Component>)
    requires
        forall|i: int| 0 <= i < comps@.len() ==> (#[trigger] comps@[i]).pixels@.len() > 0,
        forall|i: int, j: int| 0 <= i < j < comps@.len() ==>
            row_major_less((#[trigger] comps@[i]).pixels@[0], (#[trigger] comps@[j]).pixels@[0]),
    ensures
        sorted@.len() == comps@.len(),
        exists|perm: Seq<int>| #[trigger] permuted(sorted@, comps@, perm),
        forall|a: int, b: int| 0 <= a < b < sorted@.len() ==> comes_before(#[trigger] sorted@[a], #[trigger] sorted@[b]),
{
    let ghost orig = comps@;
    let n = comps.len();
    let mut rest = comps;
    let mut sorted: Vec<Component> = Vec::new();
    let ghost mut perm: Seq<int> = Seq::empty();
    while rest.len() > 0
        invariant
            n == orig.len(),
            forall|i: int| 0 <= i < orig.len() ==> (#[trigger] orig[i]).pixels@.len() > 0,
            forall|i: int, j: int| 0 <= i < j < orig.len() ==>
                row_major_less((#[trigger] orig[i]).pixels@[0], (#[trigger] orig[j]).pixels@[0]),
            rest@.len() <= n,
            rest@ == orig.subrange(0, rest@.len() as int),
            sorted@.len() == n - rest@.len(),
            perm.len() == sorted@.len(),
            forall|k: int| 0 <= k < perm.len() ==> rest@.len() <= #[trigger] perm[k] < n && sorted@[k] == orig[perm[k]],
            forall|a: int, b: int| 0 <= a < b < perm.len() ==> #[trigger] perm[a] != #[trigger] perm[b],
            forall|idx: int| rest@.len() <= idx < n ==> #[trigger] covers(perm, idx),
            forall|a: int, b: int| 0 <= a < b < sorted@.len() ==> comes_before(#[trigger] sorted@[a], #[trigger] sorted@[b]),
        decreases rest@.len(),
    {
        let ghost r0 = rest@;
        let x = match rest.pop() {
            Some(x) => x,
            None => { return sorted; },
        };
        let ghost xi = (r0.len() - 1) as int;
        assert(r0 == rest@.push(x));
        assert(x == orig[xi]);
        assert(rest@ =~= orig.subrange(0, rest@.len() as int));
        let xs = x.pixels.len();
        let mut pos: usize = 0;
        while pos < sorted.len() && sorted[pos].pixels.len() > xs
            invariant
                0 <= pos <= sorted@.len(),
                xs == x.pixels@.len(),
                forall|k: int| 0 <= k < pos ==> (#[trigger] sorted@[k]).pixels@.len() > xs,
            decreases sorted@.len() - pos,
        {
            pos += 1;
        }
        let ghost s0 = sorted@;
        let ghost p0 = perm;
        sorted.insert(pos, x);
        proof {
            perm = p0.insert(pos as int, xi);
            let s1 = sorted@;
            assert(s1 == s0.insert(pos as int, x));
            assert forall|k: int| 0 <= k < perm.len() implies rest@.len() <= #[trigger] perm[k] < n && s1[k] == orig[perm[k]] by {
                if k < pos { assert(perm[k] == p0[k]); }
                else if k > pos { assert(perm[k] == p0[k - 1]); }
            }
            assert forall|a: int, b: int| 0 <= a < b < perm.len() implies #[trigger] perm[a] != #[trigger] perm[b] by {
                if a != pos && b != pos {
                    let a0 = if a < pos { a } else { a - 1 };
                    let b0 = if b < pos { b } else { b - 1 };
                    assert(perm[a] == p0[a0] && perm[b] == p0[b0]);
                } else if a == pos {
                    let b0 = b - 1;
                    assert(perm[b] == p0[b0]);
                } else {
                    assert(perm[a] == p0[a]);
                }
            }
            assert forall|idx: int| rest@.len() <= idx < n implies #[trigger] covers(perm, idx) by {
                if idx == xi {
                    assert(perm[pos as int] == xi);
                } else {
                    assert(covers(p0, idx));
                    let k0 = choose|k0: int| 0 <= k0 < p0.len() && p0[k0] == idx;
                    if k0 < pos { assert(perm[k0] == idx); } else { assert(perm[k0 + 1] == idx); }
                }
            }
            assert forall|a: int, b: int| 0 <= a < b < s1.len() implies comes_before(#[trigger] s1[a], #[trigger] s1[b]) by {
                if a != pos && b != pos {
                    let a0 = if a < pos { a } else { a - 1 };
                    let b0 = if b < pos { b } else { b - 1 };
                    assert(s1[a] == s0[a0] && s1[b] == s0[b0]);
                } else if a == pos {
                    let b0 = b - 1;
                    assert(s1[b] == s0[b0]);
                    assert(s0[b0] == orig[p0[b0]]);
                    assert(p0[b0] > xi);
                    if b0 == pos as int {
                    } else {
                        assert(comes_before(s0[pos as int], s0[b0]) || pos as int == s0.len());
                    }
                    if s0[b0].pixels@.len() == xs {
                        assert(row_major_less(orig[xi].pixels@[0], orig[p0[b0]].pixels@[0]));
                    } else if pos < s0.len() {
                        assert(s0[pos as int].pixels@.len() <= xs);
                        if b0 > pos { assert(comes_before(s0[pos as int], s0[b0])); }
                    }
                } else {
                    assert(s1[a] == s0[a]);
                }
            }
        }
    }
    assert(rest@.len() == 0);
    assert(permuted(sorted@, orig, perm));
    sorted
}

/// Extracts the 4-connected components of non-zero pixels, largest first;
/// components of equal size keep the row-major order of their first pixels.
pub fn extract_components(grid: &ArcGrid) -> (comps: Vec<Component>)
    requires
        grid.wf(),
    ensures
        is_component_list(grid@, comps@),
{
    if grid.height == 0 || grid.width == 0 {
        return Vec::new();
    }
    let scanned = scan_components(grid);
    let ghost o = scanned@;
    let sorted = sort_by_size(scanned);
    proof {
        let s = sorted@;
        let g = grid@;
        let perm = choose|perm: Seq<int>| #[trigger] permuted(s, o, perm);
        assert(permuted(s, o, perm));
        assert forall|i: int| 0 <= i < s.len() implies is_component(g, #[trigger] s[i]) by {
            assert(s[i] == o[perm[i]]);
        }
        assert forall|i: int, j: int, p: Pixel| 0 <= i < s.len() && 0 <= j < s.len() && i != j
            && #[trigger] s[i].pixels@.contains(p) implies !(#[trigger] s[j].pixels@.contains(p)) by {
            assert(s[i] == o[perm[i]] && s[j] == o[perm[j]]);
            if i < j { assert(perm[i] != perm[j]); } else { assert(perm[j] != perm[i]); }
        }
        assert forall|p: Pixel| on_grid(g.len() as int, grid_width(g) as int, p) && #[trigger] pix(g, p) != 0
            implies exists|i: int| 0 <= i < s.len() && (#[trigger] s[i]).pixels@.contains(p) by {
            let i0 = choose|i0: int| 0 <= i0 < o.len() && (#[trigger] o[i0]).pixels@.contains(p);
            assert(covers(perm, i0));
            let k = choose|k: int| 0 <= k < perm.len() && perm[k] == i0;
            assert(s[k] == o[i0]);
        }
    }
    sorted
}

/// Statistics about the colors of a grid.
#[derive(Debug, Clone, PartialEq, Eq)]
pub struct ColorStats {
    /// Count of each color (0-9).
    pub counts: [usize; 10],
    /// Total number of non-background (non-zero) pixels.
    pub total_non_bg: usize,
    /// The most common non-zero color, the largest one on a tie.
    pub dominant_color: u8,
}

/// The number of cells of colors `lo..hi`.
pub open spec fn count_range(g: Seq<Seq<u8>>, lo: int, hi: int) -> nat
    decreases hi - lo,
{
    if hi <= lo {
        0
    } else {
        count_range(g, lo, hi - 1) + color_count(g, (hi - 1) as u8)
    }
}

/// `d` is the most common color among 1-9, the largest one on a tie.
pub open spec fn is_dominant_color(g: Seq<Seq<u8>>, d: u8) -> bool {
    &&& 1 <= d < NUM_COLORS
    &&& forall|e: u8| 1 <= e < NUM_COLORS ==> color_count(g, e) <= color_count(g, d)
    &&& forall|e: u8| d < e < NUM_COLORS ==> color_count(g, e) < color_count(g, d)
}

/// The statistics describe the grid.
pub open spec fn stats_of(g: Seq<Seq<u8>>, s: ColorStats) -> bool {
    &&& forall|c: u8| c < NUM_COLORS ==> #[trigger] s.counts@[c as int] == color_count(g, c)
    &&& s.total_non_bg == count_range(g, 1, NUM_COLORS as int)
    &&& is_dominant_color(g, s.dominant_color)
}

impl ColorStats {
    /// Computes the color statistics of a grid.
    pub fn compute(grid: &ArcGrid) -> (s: ColorStats)
        requires
            grid.wf(),
        ensures
            stats_of(grid@, s),
    {
        let ghost g = grid@;
        let v = color_counts(grid);
        let counts: [usize; 10] = [v[0], v[1], v[2], v[3], v[4], v[5], v[6], v[7], v[8], v[9]];
        assert forall|c: u8| c < NUM_COLORS implies #[trigger] counts@[c as int] == color_count(g, c) by {
            assert(counts@[c as int] == v@[c as int]);
        }
        let mut total: usize = 0;
        let mut c: usize = 1;
        while c < 10
            invariant
                1 <= c <= 10,
                v@.len() == NUM_COLORS,
                forall|c: u8| c < NUM_COLORS ==> #[trigger] v@[c as int] == color_count(g, c),
                forall|c: int| 0 <= c < NUM_COLORS ==> #[trigger] v@[c] <= 900,
                total == count_range(g, 1, c as int),
                total <= 900 * c,
            decreases 10 - c,
        {
            assert(v@[c as int] == color_count(g, c as u8));
            total = total + v[c];
            c += 1;
        }
        let mut dominant: usize = 1;
        let mut d: usize = 2;
        while d < 10
            invariant
                2 <= d <= 10,
                1 <= dominant < d,
                v@.len() == NUM_COLORS,
                forall|e: int| 1 <= e < d ==> #[trigger] v@[e] <= v@[dominant as int],
                forall|e: int| dominant < e < d ==> #[trigger] v@[e] < v@[dominant as int],
            decreases 10 - d,
        {
            if v[d] >= v[dominant] {
                dominant = d;
            }
            d += 1;
        }
        let dc = dominant as u8;
        assert forall|e: u8| 1 <= e < NUM_COLORS implies color_count(g, e) <= color_count(g, dc) by {
            assert(v@[e as int] == color_count(g, e));
            assert(v@[dc as int] == color_count(g, dc));
        }
        assert forall|e: u8| dc < e < NUM_COLORS implies color_count(g, e) < color_count(g, dc) by {
            assert(v@[e as int] == color_count(g, e));
            assert(v@[dc as int] == color_count(g, dc));
        }
        ColorStats { counts, total_non_bg: total, dominant_color: dc }
    }

    /// The count of one color.
    pub fn count(&self, color: u8) -> (n: usize)
        requires
            color < NUM_COLORS,
        ensures
            n == self.counts@[color as int],
    {
        self.counts[color as usize]
    }
}

/// The cells of colors `lo..hi` include those of each color in the range.
proof fn lemma_count_range_ge(g: Seq<Seq<u8>>, lo: int, hi: int, c: u8)
    requires
        lo <= c < hi,
    ensures
        count_range(g, lo, hi) >= color_count(g, c),
    decreases hi - lo,
{
    if c < hi - 1 {
        lemma_count_range_ge(g, lo, hi - 1, c);
    }
}

/// Colors `lo..hi` that occur nowhere count no cells.
proof fn lemma_count_range_zero(g: Seq<Seq<u8>>, lo: int, hi: int)
    requires
        0 <= lo,
        hi <= 256,
        forall|c: u8| lo <= c < hi ==> #[trigger] color_count(g, c) == 0,
    ensures
        count_range(g, lo, hi) == 0,
    decreases hi - lo,
{
    if hi > lo {
        lemma_count_range_zero(g, lo, hi - 1);
        assert(color_count(g, (hi - 1) as u8) == 0);
    }
}

/// A well-formed grid has no non-zero pixel exactly when it has no
/// components: what `ObjectGraph::is_empty` reports agrees with the
/// component list of the same parse.
pub proof fn lemma_empty_iff_no_components(g: Seq<Seq<u8>>, comps: Seq<Component>, stats: ColorStats)
    requires
        valid_cells(g),
        is_component_list(g, comps),
        stats_of(g, stats),
    ensures
        stats.total_non_bg == 0 <==> comps.len() == 0,
{
    if comps.len() > 0 {
        let c = comps[0];
        assert(is_component(g, c));
        let p = c.pixels@[0];
        assert(on_grid(g.len() as int, grid_width(g) as int, p) && pix(g, p) == c.color);
        let a = p.0 as int;
        let b = p.1 as int;
        assert(g[a].len() == grid_width(g));
        lemma_count_positive(g, a, b);
        assert(g[a][b] < NUM_COLORS);
        lemma_count_range_ge(g, 1, NUM_COLORS as int, c.color);
    } else {
        assert forall|c: u8| 1 <= c < NUM_COLORS implies #[trigger] color_count(g, c) == 0 by {
            assert forall|r: int, k: int| 0 <= r < g.len() && 0 <= k < g[r].len() implies #[trigger] g[r][k] != c by {
                let p: Pixel = (r as usize, k as usize);
                assert(g[r].len() == grid_width(g));
                assert(on_grid(g.len() as int, grid_width(g) as int, p));
                if g[r][k] == c {
                    assert(pix(g, p) != 0);
                }
            }
            lemma_rows_count_zero(g, g.len() as int, c);
        }
        lemma_count_range_zero(g, 1, NUM_COLORS as int);
    }
}

/// The index of a pixel in a box with top-left corner `(r0, c0)` and rows of `w` cells.
pub open spec fn box_index(p: Pixel, r0: int, c0: int, w: int) -> int {
    (p.0 - r0) * w + (p.1 - c0)
}

/// A component's bounding box has at least one and at most as many rows and
/// columns as the grid, and the component has at most as many pixels as the box has cells.
pub proof fn lemma_component_fits_box(g: Seq<Seq<u8>>, comp: Component)
    requires
        is_component(g, comp),
    ensures
        1 <= comp.bbox.1 - comp.bbox.0 + 1 <= g.len(),
        1 <= comp.bbox.3 - comp.bbox.2 + 1 <= grid_width(g),
        comp.pixels@.len() <= (comp.bbox.1 - comp.bbox.0 + 1) * (comp.bbox.3 - comp.bbox.2 + 1),
{
    let ps = comp.pixels@;
    let r0 = comp.bbox.0 as int;
    let c0 = comp.bbox.2 as int;
    let hh = comp.bbox.1 - comp.bbox.0 + 1;
    let ww = comp.bbox.3 - comp.bbox.2 + 1;
    assert(comp.bbox.0 <= ps[0].0 <= comp.bbox.1 && comp.bbox.2 <= ps[0].1 <= comp.bbox.3);
    let k1 = choose|k: int| 0 <= k < ps.len() && (#[trigger] ps[k]).0 == comp.bbox.1;
    let k3 = choose|k: int| 0 <= k < ps.len() && (#[trigger] ps[k]).1 == comp.bbox.3;
    assert(on_grid(g.len() as int, grid_width(g) as int, ps[k1]));
    assert(on_grid(g.len() as int, grid_width(g) as int, ps[k3]));
    let f = |p: Pixel| box_index(p, r0, c0, ww);
    let x = ps.to_set();
    let y = x.map(f);
    let range = vstd::set_lib::set_int_range(0, hh * ww);
    ps.unique_seq_to_set();
    assert(x.finite());
    assert forall|a: Pixel, b: Pixel| x.contains(a) && x.contains(b) && #[trigger] f(a) == #[trigger] f(b) implies a == b by {
        let ka = choose|k: int| 0 <= k < ps.len() && ps[k] == a;
        let kb = choose|k: int| 0 <= k < ps.len() && ps[k] == b;
        assert(comp.bbox.0 <= ps[ka].0 && comp.bbox.2 <= ps[ka].1 <= comp.bbox.3);
        assert(comp.bbox.0 <= ps[kb].0 && comp.bbox.2 <= ps[kb].1 <= comp.bbox.3);
        let ar = a.0 - r0;
        let ac = a.1 - c0;
        let br = b.0 - r0;
        let bc = b.1 - c0;
        assert(ar == br && ac == bc) by (nonlinear_arith)
            requires ar * ww + ac == br * ww + bc, 0 <= ac < ww, 0 <= bc < ww, ar >= 0, br >= 0;
    }
    vstd::set_lib::lemma_map_size(x, y, f);
    assert forall|v: int| #[trigger] y.contains(v) implies range.contains(v) by {
        let a = choose|a: Pixel| x.contains(a) && f(a) == v;
        let ka = choose|k: int| 0 <= k < ps.len() && ps[k] == a;
        assert(comp.bbox.0 <= ps[ka].0 <= comp.bbox.1 && comp.bbox.2 <= ps[ka].1 <= comp.bbox.3);
        let ar = a.0 - r0;
        let ac = a.1 - c0;
        assert(0 <= ar * ww + ac < hh * ww) by (nonlinear_arith)
            requires 0 <= ar < hh, 0 <= ac < ww;
    }
    vstd::set_lib::lemma_int_range(0, hh * ww);
    vstd::set_lib::lemma_len_subset(y, range);
}

/// `ps` lists every non-zero cell of `g`, all of one color, each after the
/// first sharing a side with an earlier one: the non-zero cells form one
/// 4-connected region of a single color.
pub open spec fn one_region_order(g: Seq<Seq<u8>>, ps: Seq<Pixel>) -> bool {
    &&& ps.len() > 0
    &&& forall|k: int| 0 <= k < ps.len() ==> on_grid(g.len() as int, grid_width(g) as int, #[trigger] ps[k])
        && pix(g, ps[k]) == pix(g, ps[0]) && pix(g, ps[k]) != 0
    &&& forall|p: Pixel| on_grid(g.len() as int, grid_width(g) as int, p) && #[trigger] pix(g, p) != 0 ==> ps.contains(p)
    &&& connected_order(ps)
}

/// The non-zero cells of `g` form exactly one 4-connected region of one color.
pub open spec fn single_region(g: Seq<Seq<u8>>) -> bool {
    exists|ps: Seq<Pixel>| one_region_order(g, ps)
}

/// A component holding the first pixel of a connected order of pixels of its
/// color holds them all.
proof fn lemma_component_holds_order(g: Seq<Seq<u8>>, comp: Component, ps: Seq<Pixel>, k: int)
    requires
        is_component(g, comp),
        connected_order(ps),
        forall|j: int| 0 <= j < ps.len() ==> on_grid(g.len() as int, grid_width(g) as int, #[trigger] ps[j])
            && pix(g, ps[j]) == comp.color,
        comp.pixels@.contains(ps[0]),
        0 <= k < ps.len(),
    ensures
        forall|j: int| 0 <= j <= k ==> comp.pixels@.contains(#[trigger] ps[j]),
    decreases k,
{
    if k > 0 {
        lemma_component_holds_order(g, comp, ps, k - 1);
        assert(has_earlier_neighbor(ps, k));
        let l = choose|l: int| 0 <= l < k && #[trigger] adjacent(ps[l], ps[k]);
        assert(comp.pixels@.contains(ps[l]));
        let kk = choose|kk: int| 0 <= kk < comp.pixels@.len() && comp.pixels@[kk] == ps[l];
        assert(pix(g, comp.pixels@[kk]) == comp.color);
        assert(on_grid(g.len() as int, grid_width(g) as int, ps[k]));
        assert(adjacent(comp.pixels@[kk], ps[k]));
        assert forall|j: int| 0 <= j <= k implies comp.pixels@.contains(#[trigger] ps[j]) by {
            if j < k {
                assert(comp.pixels@.contains(ps[j]));
            }
        }
    }
}

/// A grid has exactly one component when and only when its non-zero cells
/// form one 4-connected region of a single color.
pub proof fn lemma_single_component_iff_one_region(g: Seq<Seq<u8>>, comps: Seq<Component>)
    requires
        is_component_list(g, comps),
    ensures
        comps.len() == 1 <==> single_region(g),
{
    let h = g.len() as int;
    let w = grid_width(g) as int;
    if comps.len() == 1 {
        let ps = comps[0].pixels@;
        assert(is_component(g, comps[0]));
        assert forall|p: Pixel| on_grid(h, w, p) && #[trigger] pix(g, p) != 0 implies ps.contains(p) by {
            let i = choose|i: int| 0 <= i < comps.len() && (#[trigger] comps[i]).pixels@.contains(p);
            assert(i == 0);
        }
        assert(one_region_order(g, ps));
    }
    if single_region(g) {
        let ps = choose|ps: Seq<Pixel>| one_region_order(g, ps);
        assert(on_grid(h, w, ps[0]) && pix(g, ps[0]) != 0);
        let i = choose|i: int| 0 <= i < comps.len() && (#[trigger] comps[i]).pixels@.contains(ps[0]);
        assert(is_component(g, comps[i]));
        let k0 = choose|k: int| 0 <= k < comps[i].pixels@.len() && comps[i].pixels@[k] == ps[0];
        assert(pix(g, comps[i].pixels@[k0]) == comps[i].color);
        lemma_component_holds_order(g, comps[i], ps, ps.len() - 1);
        if comps.len() != 1 {
            let j: int = if i == 0 { 1 } else { 0 };
            assert(is_component(g, comps[j]));
            let q = comps[j].pixels@[0];
            assert(on_grid(h, w, q) && pix(g, q) == comps[j].color);
            assert(ps.contains(q));
            let kq = choose|kq: int| 0 <= kq < ps.len() && ps[kq] == q;
            assert(comps[i].pixels@.contains(ps[kq]));
            assert(comps[j].pixels@.contains(q));
        }
    }
}

/// Two components are the same: color, pixels in order, and bounding box.
pub open spec fn same_component(a: Component, b: Component) -> bool {
    a.color == b.color && a.pixels@ == b.pixels@ && a.bbox == b.bbox
}

/// `a` comes before `b` in a component list: larger first, equal sizes in
/// the row-major order of their first pixels.
pub open spec fn listed_before(a: Component, b: Component) -> bool {
    a.pixels@.len() > b.pixels@.len()
        || (a.pixels@.len() == b.pixels@.len() && row_major_less(a.pixels@[0], b.pixels@[0]))
}

/// A component that holds pixel `k` of another holds its first pixel.
proof fn lemma_holds_first(g: Seq<Seq<u8>>, c1: Component, c2: Component, k: int)
    requires
        is_component(g, c1),
        is_component(g, c2),
        0 <= k < c2.pixels@.len(),
        c1.pixels@.contains(c2.pixels@[k]),
    ensures
        c1.pixels@.contains(c2.pixels@[0]),
    decreases k,
{
    if k > 0 {
        let ps = c2.pixels@;
        assert(has_earlier_neighbor(ps, k));
        let l = choose|l: int| 0 <= l < k && #[trigger] adjacent(ps[l], ps[k]);
        let kk = choose|kk: int| 0 <= kk < c1.pixels@.len() && c1.pixels@[kk] == ps[k];
        assert(pix(g, c1.pixels@[kk]) == c1.color);
        assert(on_grid(g.len() as int, grid_width(g) as int, ps[l]) && pix(g, ps[l]) == c2.color);
        assert(adjacent(c1.pixels@[kk], ps[l]));
        lemma_holds_first(g, c1, c2, l);
    }
}

/// Two components that share a pixel are the same component.
pub proof fn lemma_components_sharing_pixel(g: Seq<Seq<u8>>, c1: Component, c2: Component, p: Pixel)
    requires
        is_component(g, c1),
        is_component(g, c2),
        c1.pixels@.contains(p),
        c2.pixels@.contains(p),
    ensures
        same_component(c1, c2),
{
    let ps1 = c1.pixels@;
    let ps2 = c2.pixels@;
    let k1 = choose|k: int| 0 <= k < ps1.len() && ps1[k] == p;
    let k2 = choose|k: int| 0 <= k < ps2.len() && ps2[k] == p;
    assert(pix(g, ps1[k1]) == c1.color && pix(g, ps2[k2]) == c2.color);
    lemma_holds_first(g, c1, c2, k2);
    lemma_holds_first(g, c2, c1, k1);
    lemma_component_holds_order(g, c1, ps2, ps2.len() - 1);
    lemma_component_holds_order(g, c2, ps1, ps1.len() - 1);
    // The first pixels are the earliest of the same pixels.
    assert(ps1.contains(ps1[0]) && ps2.contains(ps2[0]));
    if ps1[0] != ps2[0] {
        let j = choose|j: int| 0 <= j < ps2.len() && ps2[j] == ps1[0];
        let i = choose|i: int| 0 <= i < ps1.len() && ps1[i] == ps2[0];
        assert(row_major_less(ps2[0], ps2[j]));
        assert(row_major_less(ps1[0], ps1[i]));
    }
    assert(ps1 == ps2);
    let b1 = c1.bbox;
    let b2 = c2.bbox;
    let r0 = choose|k: int| 0 <= k < ps2.len() && (#[trigger] ps2[k]).0 == b2.0;
    let r1 = choose|k: int| 0 <= k < ps2.len() && (#[trigger] ps2[k]).0 == b2.1;
    let q0 = choose|k: int| 0 <= k < ps2.len() && (#[trigger] ps2[k]).1 == b2.2;
    let q1 = choose|k: int| 0 <= k < ps2.len() && (#[trigger] ps2[k]).1 == b2.3;
    let s0 = choose|k: int| 0 <= k < ps1.len() && (#[trigger] ps1[k]).0 == b1.0;
    let s1 = choose|k: int| 0 <= k < ps1.len() && (#[trigger] ps1[k]).0 == b1.1;
    let t0 = choose|k: int| 0 <= k < ps1.len() && (#[trigger] ps1[k]).1 == b1.2;
    let t1 = choose|k: int| 0 <= k < ps1.len() && (#[trigger] ps1[k]).1 == b1.3;
    assert(b1.0 <= ps1[r0].0 && b2.0 <= ps2[s0].0);
    assert(ps1[r1].0 <= b1.1 && ps2[s1].0 <= b2.1);
    assert(b1.2 <= ps1[q0].1 && b2.2 <= ps2[t0].1);
    assert(ps1[q1].1 <= b1.3 && ps2[t1].1 <= b2.3);
}

/// `comps` is a list of the components of `g`, with its description kept
/// folded inside proofs that compare two lists.
#[verifier::opaque]
spec fn component_list_of(g: Seq<Seq<u8>>, comps: Seq<Component>) -> bool {
    is_component_list(g, comps)
}

/// The component at position `i` of one list of a grid's components is in
/// every other list of them.
proof fn lemma_find_in_list(g: Seq<Seq<u8>>, comps: Seq<Component>, other: Seq<Component>, i: int) -> (j: int)
    requires
        component_list_of(g, comps),
        component_list_of(g, other),
        0 <= i < other.len(),
    ensures
        0 <= j < comps.len(),
        same_component(comps[j], other[i]),
{
    reveal(component_list_of);
    let c = other[i];
    assert(is_component(g, c));
    let p = c.pixels@[0];
    assert(on_grid(g.len() as int, grid_width(g) as int, p) && pix(g, p) == c.color);
    assert(c.pixels@.contains(p));
    let j = choose|j: int| 0 <= j < comps.len() && (#[trigger] comps[j]).pixels@.contains(p);
    assert(is_component(g, comps[j]));
    lemma_components_sharing_pixel(g, comps[j], c, p);
    j
}

/// Two positions of a component list hold different components.
proof fn lemma_list_distinct(g: Seq<Seq<u8>>, comps: Seq<Component>, i: int, j: int)
    requires
        component_list_of(g, comps),
        0 <= i < comps.len(),
        0 <= j < comps.len(),
        i != j,
    ensures
        !same_component(comps[i], comps[j]),
{
    reveal(component_list_of);
    assert(is_component(g, comps[i]));
    let p = comps[i].pixels@[0];
    assert(comps[i].pixels@.contains(p));
    if same_component(comps[i], comps[j]) {
        assert(comps[j].pixels@.contains(p));
    }
}

/// An earlier component of a list is listed before a later one.
proof fn lemma_list_order(g: Seq<Seq<u8>>, comps: Seq<Component>, i: int, j: int)
    requires
        component_list_of(g, comps),
        0 <= i < j < comps.len(),
    ensures
        listed_before(comps[i], comps[j]),
{
    reveal(component_list_of);
}

/// Two lists of the components of a grid agree up to position `i`.
proof fn lemma_component_lists_agree(g: Seq<Seq<u8>>, a: Seq<Component>, b: Seq<Component>, i: int)
    requires
        component_list_of(g, a),
        component_list_of(g, b),
        0 <= i < a.len(),
    ensures
        forall|k: int| 0 <= k <= i ==> k < b.len() && #[trigger] same_component(a[k], b[k]),
    decreases i,
{
    if i > 0 {
        lemma_component_lists_agree(g, a, b, i - 1);
    }
    let j = lemma_find_in_list(g, b, a, i);
    if j < i {
        assert(same_component(a[j], b[j]));
        lemma_list_distinct(g, a, j, i);
    } else if j > i {
        let k = lemma_find_in_list(g, a, b, i);
        if k < i {
            assert(same_component(a[k], b[k]));
            lemma_list_distinct(g, b, k, i);
        } else if k == i {
            lemma_list_distinct(g, b, i, j);
        } else {
            lemma_list_order(g, a, i, k);
            lemma_list_order(g, b, i, j);
        }
    }
    assert(same_component(a[i], b[i]));
}

/// A grid has one list of components: any two lists that meet the
/// description agree component by component.
pub proof fn lemma_component_list_unique(g: Seq<Seq<u8>>, a: Seq<Component>, b: Seq<Component>)
    requires
        is_component_list(g, a),
        is_component_list(g, b),
    ensures
        a.len() == b.len(),
        forall|k: int| 0 <= k < a.len() ==> #[trigger] same_component(a[k], b[k]),
{
    reveal(component_list_of);
    if a.len() > 0 {
        lemma_component_lists_agree(g, a, b, a.len() - 1);
        assert(same_component(a[a.len() - 1], b[a.len() - 1]));
    }
    if b.len() > 0 {
        lemma_component_lists_agree(g, b, a, b.len() - 1);
        assert(same_component(b[b.len() - 1], a[b.len() - 1]));
    }
}

/// A grid as a graph of objects: its size, components, color statistics and background.
#[derive(Debug, Clone, PartialEq, Eq)]
pub struct ObjectGraph {
    /// The dimensions of the parsed grid.
    pub width: usize,
    pub height: usize,
    /// Connected components sorted by size.
    pub components: Vec<Component>,
    /// Color statistics.
    pub colors: ColorStats,
    /// The most common color (background).
    pub background: u8,
}

impl ObjectGraph {
    /// Parses a grid into an object graph.
    pub fn parse(grid: &ArcGrid) -> (og: ObjectGraph)
        requires
            grid.wf(),
        ensures
            og.width == grid.width,
            og.height == grid.height,
            is_component_list(grid@, og.components@),
            stats_of(grid@, og.colors),
            og.background == most_common_color_spec(grid@),
    {
        let colors = ColorStats::compute(grid);
        let background = most_common_color(grid);
        let components = extract_components(grid);
        ObjectGraph { width: grid.width, height: grid.height, components, colors, background }
    }

    /// The number of components.
    pub fn component_count(&self) -> (n: usize)
        ensures
            n == self.components@.len(),
    {
        self.components.len()
    }

    /// The largest component (the first), if any.
    pub fn largest_component(&self) -> (c: Option<&Component>)
        ensures
            self.components@.len() == 0 ==> c is None,
            self.components@.len() > 0 ==> c == Some(&self.components@[0]),
    {
        if self.components.len() == 0 {
            None
        } else {
            Some(&self.components[0])
        }
    }

    /// Whether no pixel differs from color 0.
    pub fn is_empty(&self) -> (b: bool)
        ensures
            b == (self.colors.total_non_bg == 0),
    {
        self.colors.total_non_bg == 0
    }

    /// Whether there is exactly one component.
    pub fn is_single_component(&self) -> (b: bool)
        ensures
            b == (self.components@.len() == 1),
    {
        self.components.len() == 1
    }
}

} // verus!

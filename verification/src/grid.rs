//! ARC grids: rectangular boards of colors 0-9, at most 30 by 30.

use vstd::prelude::*;

verus! {

/// The largest number of rows or columns an ARC grid may have.
pub const MAX_GRID_DIM: usize = 30;

/// The number of ARC colors (0 through 9).
pub const NUM_COLORS: usize = 10;

/// Width of a grid given by its rows: the length of the first row, 0 when there is none.
pub open spec fn grid_width(g: Seq<Seq<u8>>) -> nat {
    if g.len() > 0 { g[0].len() } else { 0 }
}

/// A sequence of rows is a valid ARC grid: at most 30 rows, all rows of the
/// same length (at most 30), every cell a color below 10.
pub open spec fn valid_cells(g: Seq<Seq<u8>>) -> bool {
    &&& g.len() <= MAX_GRID_DIM
    &&& grid_width(g) <= MAX_GRID_DIM
    &&& forall|i: int| 0 <= i < g.len() ==> #[trigger] g[i].len() == grid_width(g)
    &&& forall|i: int, j: int|
        0 <= i < g.len() && 0 <= j < g[i].len() ==> #[trigger] g[i][j] < NUM_COLORS
}

/// The rows of a `Vec<Vec<u8>>` as a sequence of sequences.
pub open spec fn rows_view(data: Seq<Vec<u8>>) -> Seq<Seq<u8>> {
    data.map_values(|r: Vec<u8>| r@)
}

/// An ARC grid stored row by row.
#[derive(Debug, Clone, PartialEq, Eq)]
pub struct ArcGrid {
    pub data: Vec<Vec<u8>>,
    pub width: usize,
    pub height: usize,
}

/// Why a grid could not be built.
#[derive(Debug, Clone, Copy, PartialEq, Eq)]
pub enum GridError {
    /// More than 30 rows or columns.
    TooLarge,
    /// Rows of different lengths.
    Ragged,
    /// A cell holds a value above 9.
    InvalidColor,
}

impl View for ArcGrid {
    type V = Seq<Seq<u8>>;

    open spec fn view(&self) -> Seq<Seq<u8>> {
        rows_view(self.data@)
    }
}

impl ArcGrid {
    /// The fields agree with the rows and the rows form a valid grid.
    pub open spec fn wf(&self) -> bool {
        &&& self.data@.len() == self.height
        &&& self.width == grid_width(self@)
        &&& valid_cells(self@)
    }

    /// Builds a grid from its rows.
    pub fn from_data(data: Vec<Vec<u8>>) -> (r: Result<ArcGrid, GridError>)
        ensures
            r is Ok <==> valid_cells(rows_view(data@)),
            r matches Ok(g) ==> g.wf() && g@ == rows_view(data@),
    {
        let height = data.len();
        let width = if height > 0 { data[0].len() } else { 0 };
        let ghost g = rows_view(data@);
        if height > MAX_GRID_DIM || width > MAX_GRID_DIM {
            return Err(GridError::TooLarge);
        }
        let mut i: usize = 0;
        while i < height
            invariant
                height == data@.len(),
                g == rows_view(data@),
                width == grid_width(g),
                height <= MAX_GRID_DIM,
                width <= MAX_GRID_DIM,
                0 <= i <= height,
                forall|k: int| 0 <= k < i ==> #[trigger] g[k].len() == width,
                forall|k: int, j: int| 0 <= k < i && 0 <= j < g[k].len() ==> #[trigger] g[k][j] < NUM_COLORS,
            decreases height - i,
        {
            let row = &data[i];
            if row.len() != width {
                assert(g[i as int].len() != grid_width(g));
                return Err(GridError::Ragged);
            }
            let mut j: usize = 0;
            while j < width
                invariant
                    0 <= i < height,
                    height == g.len(),
                    g == rows_view(data@),
                    row@ == g[i as int],
                    row@.len() == width,
                    0 <= j <= width,
                    forall|l: int| 0 <= l < j ==> #[trigger] g[i as int][l] < NUM_COLORS,
                decreases width - j,
            {
                if row[j] >= 10 {
                    assert(g[i as int][j as int] >= NUM_COLORS);
                    assert(!valid_cells(g));
                    return Err(GridError::InvalidColor);
                }
                j += 1;
            }
            i += 1;
        }
        Ok(ArcGrid { data, width, height })
    }
}

/// An ARC task: demonstration pairs of input and expected output grids.
#[derive(Debug, Clone, PartialEq, Eq)]
pub struct ArcTask {
    pub train_pairs: Vec<(ArcGrid, ArcGrid)>,
}

impl ArcTask {
    /// Every grid of the task is well formed.
    pub open spec fn wf(&self) -> bool {
        forall|i: int| 0 <= i < self.train_pairs@.len() ==>
            (#[trigger] self.train_pairs@[i]).0.wf() && self.train_pairs@[i].1.wf()
    }
}

/// Whether two well-formed grids hold the same cells.
pub fn grids_equal(a: &ArcGrid, b: &ArcGrid) -> (r: bool)
    requires
        a.wf(),
        b.wf(),
    ensures
        r == (a@ == b@),
        r ==> a.width == b.width && a.height == b.height,
{
    if a.height != b.height || a.width != b.width {
        return false;
    }
    let mut i: usize = 0;
    while i < a.height
        invariant
            a.wf(), b.wf(), a.height == b.height, a.width == b.width,
            0 <= i <= a.height,
            forall|k: int| 0 <= k < i ==> #[trigger] a@[k] == b@[k],
        decreases a.height - i,
    {
        let ra = &a.data[i];
        let rb = &b.data[i];
        assert(a@[i as int].len() == a.width && b@[i as int].len() == b.width);
        let mut j: usize = 0;
        while j < a.width
            invariant
                a.wf(), b.wf(), a.height == b.height, a.width == b.width,
                i < a.height,
                ra@ == a@[i as int], rb@ == b@[i as int],
                ra@.len() == a.width, rb@.len() == a.width,
                0 <= j <= a.width,
                forall|l: int| 0 <= l < j ==> #[trigger] ra@[l] == rb@[l],
            decreases a.width - j,
        {
            if ra[j] != rb[j] {
                return false;
            }
            j += 1;
        }
        assert(ra@ =~= rb@);
        i += 1;
    }
    assert(a@ =~= b@);
    true
}

} // verus!

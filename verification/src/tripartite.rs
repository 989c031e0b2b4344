//! The tripartite spike code of one ARC pixel: an identity region of 10
//! neurons (one-hot color), a spatial region of 60 place cells and a context
//! region of 3 tonic phase neurons, each region repeated `scale_width` times.

use vstd::prelude::*;

verus! {

/// The number of neurons of one copy of the code: 10 + 60 + 3.
pub const BASE_DIM: usize = 73;

/// The phase of an ARC task that drives the context neurons.
#[derive(Debug, Clone, Copy, PartialEq, Eq, Structural)]
pub enum ArcPhase {
    DemoInput,
    DemoOutput,
    TestInput,
}

/// The context neuron that is on in a phase (the other two are off).
pub open spec fn phase_slot(p: ArcPhase) -> nat {
    match p {
        ArcPhase::DemoInput => 0,
        ArcPhase::DemoOutput => 1,
        ArcPhase::TestInput => 2,
    }
}

impl ArcPhase {
    /// The context neuron that is on in this phase.
    pub fn slot(self) -> (k: usize)
        ensures
            k == phase_slot(self),
    {
        match self {
            ArcPhase::DemoInput => 0,
            ArcPhase::DemoOutput => 1,
            ArcPhase::TestInput => 2,
        }
    }
}

/// Tripartite encoder for ARC grids of a given size.
#[derive(Debug, Clone, PartialEq, Eq, Structural)]
pub struct ArcTripartiteEncoder {
    pub width: usize,
    pub height: usize,
    pub scale_width: usize,
}

impl ArcTripartiteEncoder {
    /// An encoder for grids of 1 to 30 columns and rows, with at least one
    /// copy of the code.
    pub fn new(width: usize, height: usize, scale_width: usize) -> (e: ArcTripartiteEncoder)
        requires
            0 < width <= 30,
            0 < height <= 30,
            scale_width >= 1,
        ensures
            e == (ArcTripartiteEncoder { width, height, scale_width }),
    {
        ArcTripartiteEncoder { width, height, scale_width }
    }

    /// The number of neurons of one copy of the code.
    pub fn base_dim(&self) -> (d: usize)
        ensures
            d == BASE_DIM,
    {
        BASE_DIM
    }

    /// The number of neurons of the scaled code: `73 * scale_width`.
    pub fn scaled_dim(&self) -> (d: usize)
        requires
            BASE_DIM * self.scale_width <= usize::MAX,
        ensures
            d == BASE_DIM * self.scale_width,
    {
        self.base_dim() * self.scale_width
    }

    /// Where copy `unit` of the identity region starts: copies of the
    /// identity region come first, 10 neurons each.
    pub fn identity_offset(&self, unit: usize) -> (o: usize)
        requires
            unit < self.scale_width,
            BASE_DIM * self.scale_width <= usize::MAX,
        ensures
            o == 10 * unit,
    {
        10 * unit
    }

    /// Where copy `unit` of the spatial region starts: after all identity
    /// copies, 60 neurons each.
    pub fn spatial_offset(&self, unit: usize) -> (o: usize)
        requires
            unit < self.scale_width,
            BASE_DIM * self.scale_width <= usize::MAX,
        ensures
            o == 10 * self.scale_width + 60 * unit,
    {
        10 * self.scale_width + 60 * unit
    }

    /// Where copy `unit` of the context region starts: after all identity
    /// and spatial copies, 3 neurons each.
    pub fn context_offset(&self, unit: usize) -> (o: usize)
        requires
            unit < self.scale_width,
            BASE_DIM * self.scale_width <= usize::MAX,
        ensures
            o == 70 * self.scale_width + 3 * unit,
            o + 3 <= BASE_DIM * self.scale_width,
    {
        70 * self.scale_width + 3 * unit
    }
}

} // verus!

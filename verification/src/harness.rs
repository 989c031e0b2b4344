//! Operating modes of the training harness and replay sampling strategies.

use vstd::prelude::*;

verus! {

/// Operational mode of the harness.
#[derive(Debug, Clone, Copy, PartialEq, Eq, Structural)]
pub enum HarnessMode {
    Train,
    Eval,
    Dream,
    Consolidate,
}

/// The upper-case label of a mode.
pub open spec fn mode_label(m: HarnessMode) -> Seq<char> {
    match m {
        HarnessMode::Train => "TRAIN"@,
        HarnessMode::Eval => "EVAL"@,
        HarnessMode::Dream => "DREAM"@,
        HarnessMode::Consolidate => "CONSOLIDATE"@,
    }
}

impl HarnessMode {
    /// The upper-case label of this mode.
    pub fn as_str(&self) -> (s: &'static str)
        ensures
            s@ == mode_label(*self),
    {
        match self {
            HarnessMode::Train => "TRAIN",
            HarnessMode::Eval => "EVAL",
            HarnessMode::Dream => "DREAM",
            HarnessMode::Consolidate => "CONSOLIDATE",
        }
    }
}

impl Default for HarnessMode {
    /// Training is the default mode.
    fn default() -> (m: HarnessMode)
        ensures
            m == HarnessMode::Train,
    {
        HarnessMode::Train
    }
}

/// Sampling strategy for the replay buffer.
#[derive(Debug, Clone, Copy, PartialEq, Eq, Structural)]
pub enum SamplingStrategy {
    /// Uniform random sampling.
    Uniform,
    /// Prioritized by absolute TD-error.
    Prioritized,
    /// Equal class distribution.
    Balanced,
}

} // verus!

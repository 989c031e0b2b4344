//! The fixed topology of the SNN core: 180 neurons in 6 stages of 30.

use vstd::prelude::*;

verus! {

/// All neurons of the core.
pub const TOTAL_NEURONS: usize = 180;
/// Number of stages.
pub const STAGES: usize = 6;
/// Neurons per stage.
pub const NEURONS_PER_STAGE: usize = 30;
/// Neurons of the input stage.
pub const INPUT_NEURONS: usize = 30;
/// Neurons of the output stage.
pub const OUTPUT_NEURONS: usize = 30;

/// The display name of a stage.
pub open spec fn stage_label(stage: nat) -> Seq<char> {
    if stage == 0 { "Sensor"@ }
    else if stage == 1 { "Attention"@ }
    else if stage == 2 { "Memory"@ }
    else if stage == 3 { "Compression"@ }
    else if stage == 4 { "World"@ }
    else { "RL"@ }
}

/// The stage of neuron `n`: `n / 30`, indices past the last stage counting to the last.
pub open spec fn stage_spec(n: nat) -> nat {
    if n / (NEURONS_PER_STAGE as nat) < STAGES { n / (NEURONS_PER_STAGE as nat) } else { (STAGES - 1) as nat }
}

/// The stage of a neuron; indices past the last stage count to the last.
pub fn stage_of(neuron_idx: usize) -> (s: usize)
    ensures
        s == stage_spec(neuron_idx as nat),
        s < STAGES,
{
    let s = neuron_idx / NEURONS_PER_STAGE;
    if s < STAGES - 1 { s } else { STAGES - 1 }
}

/// The position of a neuron within its stage.
pub fn position_in_stage(neuron_idx: usize) -> (p: usize)
    ensures
        p == neuron_idx % NEURONS_PER_STAGE,
{
    neuron_idx % NEURONS_PER_STAGE
}

/// Every neuron of the core is its stage's first neuron plus its position:
/// the 180 neurons split into 6 stages of 30.
pub proof fn lemma_stage_layout(n: nat)
    requires
        n < TOTAL_NEURONS,
    ensures
        stage_spec(n) < STAGES,
        stage_spec(n) * NEURONS_PER_STAGE + n % (NEURONS_PER_STAGE as nat) == n,
        TOTAL_NEURONS == STAGES * NEURONS_PER_STAGE,
{
}

/// The display name of a stage.
pub fn stage_name(stage: usize) -> (s: &'static str)
    requires
        stage < STAGES,
    ensures
        s@ == stage_label(stage as nat),
{
    if stage == 0 { "Sensor" }
    else if stage == 1 { "Attention" }
    else if stage == 2 { "Memory" }
    else if stage == 3 { "Compression" }
    else if stage == 4 { "World" }
    else { "RL" }
}

} // verus!

//! Result and error types of the chat layer.

use vstd::prelude::*;
use crate::text::{dec_string, push_decimal, push_str};

verus! {

/// The outcome of an avalanche-guided word selection.
#[derive(Debug, Clone)]
pub struct AvalancheSelection {
    /// Activated cluster indices (0-6).
    pub active_clusters: Vec<usize>,
    /// Number of activated nodes.
    pub avalanche_size: usize,
    /// The word selected for each cluster.
    pub selected_words: Vec<String>,
    /// Template pattern, such as `"DET NOUN VERB"`.
    pub template_pattern: String,
    /// Clusters activated by a bridge or a text seed.
    pub seed_clusters: Vec<usize>,
}

/// A geometric object of the wrong dimension.
#[derive(Debug, Clone, Copy, PartialEq, Eq, Structural)]
pub enum GeometryError {
    DimensionMismatch { expected: usize, got: usize },
}

/// The message of a geometry error.
pub open spec fn geometry_error_text(e: GeometryError) -> Seq<char> {
    match e {
        GeometryError::DimensionMismatch { expected, got } =>
            "dimension mismatch: expected "@ + dec_string(expected as nat) + ", got "@ + dec_string(got as nat),
    }
}

impl GeometryError {
    /// The message of this error.
    pub fn message(&self) -> (s: String)
        ensures
            s@ == geometry_error_text(*self),
    {
        let mut s = String::new();
        match self {
            GeometryError::DimensionMismatch { expected, got } => {
                push_str(&mut s, "dimension mismatch: expected ");
                push_decimal(&mut s, *expected);
                push_str(&mut s, ", got ");
                push_decimal(&mut s, *got);
            },
        }
        s
    }
}

/// An index into a chat arena that holds no object.
#[derive(Debug, Clone, Copy, PartialEq, Eq, Structural)]
pub enum LearnerError {
    InvalidTrainerIndex,
    InvalidEncoderIndex,
    InvalidDecoderIndex,
}

/// The message of a learner error.
pub open spec fn learner_error_text(e: LearnerError) -> Seq<char> {
    match e {
        LearnerError::InvalidTrainerIndex => "invalid trainer index"@,
        LearnerError::InvalidEncoderIndex => "invalid encoder index"@,
        LearnerError::InvalidDecoderIndex => "invalid decoder index"@,
    }
}

impl LearnerError {
    /// The message of this error.
    pub fn message(&self) -> (s: String)
        ensures
            s@ == learner_error_text(*self),
    {
        let mut s = String::new();
        match self {
            LearnerError::InvalidTrainerIndex => push_str(&mut s, "invalid trainer index"),
            LearnerError::InvalidEncoderIndex => push_str(&mut s, "invalid encoder index"),
            LearnerError::InvalidDecoderIndex => push_str(&mut s, "invalid decoder index"),
        }
        s
    }
}

/// The quaternion attention head; it has no parameters.
#[derive(Debug, Clone, Copy, PartialEq, Eq, Structural)]
pub struct QuaternionAttention;

impl QuaternionAttention {
    /// The attention head.
    pub fn new() -> (a: QuaternionAttention)
        ensures
            a == QuaternionAttention,
    {
        QuaternionAttention
    }
}

} // verus!

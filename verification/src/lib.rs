//! The integer core of the GoldWorm substrate: ARC grid programs and their
//! parser, spike buffers and codecs, the framed SHD1 wire format, DVS
//! windows, spike-to-word decoding, replay and event stores, with proved
//! contracts.

pub mod grid;
pub mod text;
pub mod arc_program;
pub mod arc_spec;
pub mod arc_apply;
pub mod arc_laws;
pub mod arc_parser;
pub mod substrate;
pub mod wire;
pub mod shd_ccp;
pub mod dvs;
pub mod datatype;
pub mod payload;
pub mod token_decoder;
pub mod scaling;
pub mod tripartite;
pub mod harness;
pub mod moa;
pub mod snn;
pub mod cuda;
pub mod chat_types;
pub mod curriculum;
mod random;
pub mod token_spikes;
pub mod replay;
pub mod event_log;
pub mod response;

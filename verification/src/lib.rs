//! Batch analysis of sequential qlog traces, and the bookkeeping of address
//! validation tokens.

pub mod address_validation;
pub mod double;
pub mod arithmetic;
pub mod text;
pub mod order;
pub mod permutation;
pub mod json;
pub mod event;
pub mod metrics;
pub mod accumulator;
pub mod discovery;
pub mod trace;
pub mod trace_laws;
pub mod record_laws;
pub mod feature;
pub mod stats;
pub mod analysis;
pub mod score_laws;
pub mod notation;
pub mod output;
pub mod report;
pub mod output_laws;

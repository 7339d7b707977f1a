//! Verified core of the Hari epistemic substrate: the operator-signal
//! registry, canonical UTC timestamps, decision scoring against authored
//! ground truth, and the replay metrics read off a finished trace.

pub mod text;
pub mod keymap;
pub mod forecast;
pub mod operator_model;
pub mod research;
pub mod paired_eval;
pub mod corpus;
pub mod bootstrap;
pub mod metrics;
pub mod unassisted;
pub mod reliability;
pub mod source_reliability;
pub mod divergence;
pub mod lineage;
pub mod session;
pub mod json;
pub mod protocol;
pub mod calibration;
pub mod chronology;

//! Batch conversion of voice-over takes: the decisions, the arithmetic and the text handling
//! behind it, each with its contract.

pub mod app;
pub mod args;
pub mod audio_effects;
pub mod batch;
pub mod batch_laws;
pub mod diagnostic_laws;
pub mod double;
pub mod exact;
pub mod expander;
pub mod expander_laws;
pub mod ffmpeg;
pub mod fixed;
pub mod formula_laws;
pub mod job_laws;
pub mod level_laws;
pub mod memory;
pub mod paths;
pub mod pipeline;
pub mod place_laws;
pub mod processing;
pub mod proc;
pub mod rounding;
pub mod sample_laws;
pub mod signal_laws;
pub mod single;
pub mod spectral_gate;
pub mod text;
pub mod text_laws;
pub mod theme;
pub mod types;
pub mod ui;
pub mod window_laws;

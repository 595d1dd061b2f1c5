//! Core model of a system-vitals panel applet: sampling of memory, disk and
//! temperature figures, rendering of each as a display label, and a selection
//! store of watched metrics that user toggles and a periodic refresh tick keep
//! in sync.

pub mod config;
pub mod order;
pub mod render;
pub mod sampler;
pub mod stats;

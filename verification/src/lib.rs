//! The deciding half of the Auris Studio audio engine: everything it counts, plans and routes,
//! each with its contract.
//!
//! Signal processing, the audio backend and the document model live outside this crate; what is
//! here is what decides around them — which devices and rates are offered, how buffers are cut
//! into blocks, which events and notes a block delivers, how the routing is compensated for
//! latency, how an offline render is laid out, and what the audio thread does with a command.
pub mod error;
pub mod device;
pub mod capture;
pub mod meter;
pub mod monitor;
pub mod metronome;
pub mod schedule;
pub mod strip;
pub mod latency;
pub mod routing;
pub mod automation;
pub mod renderer;
pub mod engine;
pub mod offline;

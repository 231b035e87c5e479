//! A real-time dataflow compositor, verified.
//!
//! - `graph`: nodes, ports and edges with the single-driver rule, compiled into a `Plan`.
//! - `exec` and `engine`: the per-frame engine. It walks a plan, keeps each render pass's
//!   ping-pong targets and the program cache in a `RuntimeState`, binds inputs by channel, and
//!   returns the frame's GPU work as commands for the host to perform.
//! - `contract`: port-to-channel map, output naming, built-in shaders.
//! - `sinks`: output routing (fan-out, patchbay), the temporal ring, ping-pong roles, readback.
//! - `runtime`: standard operations, matrix presets, banks of scenes.
//! - `media`, `controls`, `host`: streaming-source configuration and clock, OSC bindings.
//! - `error`, `text`: errors and small text helpers.

pub mod contract;
pub mod controls;
pub mod engine;
pub mod error;
pub mod exec;
pub mod graph;
pub mod host;
pub mod media;
pub mod runtime;
pub mod sinks;
pub mod text;

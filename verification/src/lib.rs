//! Helvum's patchbay logic: the model of PipeWire nodes, ports and links that the
//! user interface draws, the decisions taken on every event coming from PipeWire,
//! and the requests sent back to it.

pub mod ids;
pub mod text;
pub mod pw_state;
pub mod pw_events;
pub mod pw_loop;
pub mod canvas;
pub mod collections;
pub mod graph_items;
pub mod naming;
pub mod preset;
pub mod manager;
pub mod layout;
pub mod matrix;
pub mod laws;

//! Decision logic of a cycle-level simulator of a spatial dataflow
//! accelerator: compute and memory tiles on a two-dimensional mesh
//! network-on-chip.
pub mod mesh;
pub mod ports;
pub mod links;
pub mod wiring;
pub mod control;
pub mod mesh_router;
pub mod sweep_router;
pub mod script;
pub mod units;
pub mod tiles;
pub mod report;

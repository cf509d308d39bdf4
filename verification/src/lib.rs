//! Verified core of a codebase visualizer: the git co-change model, the
//! activity socket naming, the font atlas, label and hull bookkeeping, and
//! the input state machine.  Everything that draws, reads the disk or talks
//! to the GPU lives outside this crate and hands plain values in.

pub mod hashing;
pub mod scene;
pub mod socket;
pub mod ui;
pub mod pipeline;
pub mod render;

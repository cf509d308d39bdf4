pub mod hull;
pub mod label;
pub mod state;

//! The window.
pub mod field_laws;
pub mod fields;
pub mod follow;
pub mod results;
pub mod run_state;
pub mod start;
pub mod start_laws;

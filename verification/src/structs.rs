//! The data that flows through a run: overlaps (proposed and confirmed), the
//! corpus with its sequence boundaries, and the user's settings.

pub mod run_config;
pub mod solutions;

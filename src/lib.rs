//! Reading the repeated blocks that the `top` monitor prints, and summing the
//! CPU usage of chosen processes in each of them.

pub mod text;
pub mod snapshot;
pub mod query;
pub mod reader;
pub mod fold;

//! Declarative HTTP task engine: placeholder resolution, request building,
//! expectation checks and the per-task retry protocol.

pub mod text;
pub mod value;
pub mod path;
pub mod json;
pub mod registry;
pub mod types;
pub mod resolve;
pub mod env;
pub mod http;
pub mod workflow;

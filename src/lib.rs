//! Build-task orchestration: a static table of actions with dependencies, an
//! executor that runs them at most once each with cycle detection, a persistent
//! key/value state store with placeholder substitution, and a content-hash
//! based change detector.

pub mod change;
pub mod executor;
mod registry;
pub mod state;
pub mod text;
pub mod tools;
pub mod util;

pub use registry::Action;

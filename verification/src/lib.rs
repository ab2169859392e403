//! Command-aliasing engine: a registry of named command templates merged
//! from several sources, with conflict detection and explicit conflict
//! resolution, and a deterministic placeholder resolver that substitutes
//! call-time arguments and context-scoped persistent variables.

pub mod assoc;
pub mod config;
pub mod context;
pub mod errors;
pub mod laws;
pub mod remote;
pub mod resolver;
pub mod strings;
pub mod tokens;
pub mod variables;

pub use config::{Config, ConfigManager};
pub use context::ContextManager;
pub use variables::{Variables, VariableManager};

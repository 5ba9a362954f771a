//! A small bootstrap runtime: units register with configurators, the configuration
//! order is resolved from their declared needs, and supervised workers run until a
//! shared cancellation signal fires.
pub mod configurator;
pub mod context;
pub mod lifecycle;
pub mod module_binder;
pub mod module_collector;
pub mod resolver;
pub mod server_health;

pub use configurator::{ConfigError, Configurator};
pub use context::Context;
pub use lifecycle::{Exit, Phase, RunError, Step, Supervisor};
pub use module_binder::{BindError, ModuleBinder};
pub use module_collector::{Blocked, ModuleCollector, StartError};
pub use resolver::resolve;
pub use server_health::ServerHealth;

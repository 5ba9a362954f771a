//! What each unit supplies to take part in configuration.
use vstd::prelude::*;
use crate::module_binder::{BindError, ModuleBinder};
use crate::server_health::ServerHealth;

verus! {

/// A failure reported by a configurator.
#[derive(Debug, PartialEq, Eq)]
pub enum ConfigError {
    /// Looking up another unit's value failed.
    Lookup(BindError),
    /// The configurator's own failure, described.
    Failed(String),
}

/// The one-shot setup logic of a unit, over module values `M` and callbacks `F`.
pub trait Configurator<M, F> {
    /// The keys of the units whose values this unit reaches into while it is
    /// configured; they are configured after it.
    fn depends_on(&self) -> Vec<&'static str>;

    /// Consumes this unit's value; may change the values still in `binder` and
    /// register callbacks on `server`.
    fn configure(
        &mut self,
        module: M,
        binder: &mut ModuleBinder<M>,
        server: &mut ServerHealth<F>,
    ) -> Result<(), ConfigError>;
}

} // verus!

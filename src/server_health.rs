//! The callbacks that configurators register for the start and shutdown phases.
use vstd::prelude::*;

verus! {

/// Start-phase and shutdown-phase callbacks, in order of registration.
pub struct ServerHealth<F> {
    on_healthy_callbacks: Vec<F>,
    on_shutdown_callbacks: Vec<F>,
}

impl<F> ServerHealth<F> {
    /// The start-phase callbacks.
    pub closed spec fn healthy(&self) -> Seq<F> {
        self.on_healthy_callbacks@
    }

    /// The shutdown-phase callbacks.
    pub closed spec fn shutdown(&self) -> Seq<F> {
        self.on_shutdown_callbacks@
    }

    /// No callbacks yet.
    pub fn new() -> (r: Self)
        ensures
            r.healthy().len() == 0,
            r.shutdown().len() == 0,
    {
        ServerHealth { on_healthy_callbacks: Vec::new(), on_shutdown_callbacks: Vec::new() }
    }

    /// Adds a callback to run as a supervised worker once every unit is configured.
    pub fn register_on_healthy(&mut self, cb: F)
        ensures
            final(self).healthy() == old(self).healthy().push(cb),
            final(self).shutdown() == old(self).shutdown(),
    {
        self.on_healthy_callbacks.push(cb);
    }

    /// Adds a callback to run once the start phase has stopped.
    pub fn register_on_shutdown(&mut self, cb: F)
        ensures
            final(self).shutdown() == old(self).shutdown().push(cb),
            final(self).healthy() == old(self).healthy(),
    {
        self.on_shutdown_callbacks.push(cb);
    }

    /// The number of start-phase callbacks.
    pub fn healthy_len(&self) -> (n: usize)
        ensures
            n == self.healthy().len(),
    {
        self.on_healthy_callbacks.len()
    }

    /// The number of shutdown-phase callbacks.
    pub fn shutdown_len(&self) -> (n: usize)
        ensures
            n == self.shutdown().len(),
    {
        self.on_shutdown_callbacks.len()
    }

    /// Hands out the start-phase and the shutdown-phase callbacks.
    pub fn into_callbacks(self) -> (r: (Vec<F>, Vec<F>))
        ensures
            r.0@ == self.healthy(),
            r.1@ == self.shutdown(),
    {
        (self.on_healthy_callbacks, self.on_shutdown_callbacks)
    }
}

} // verus!

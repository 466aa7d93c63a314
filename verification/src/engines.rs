//! The engine contract: three fallible operations over string keys
//! and values.  Any engine that upholds its own validity predicate
//! across them can sit behind the server.

use vstd::prelude::*;

use crate::error::KvsError;

verus! {

/// The engines a server can run.
#[derive(Debug, Clone, Copy, PartialEq, Eq, Structural)]
pub enum EngineKind {
    /// The log-structured engine of this crate.
    Kvs,
    /// The embedded B-tree engine.
    Sled,
}

/// Whether a server start must be refused: the requested engine
/// differs from the one recorded for a data directory that is already
/// in use.  Reopening a directory with the other engine would
/// misread its files.
pub open spec fn spec_engine_switch_rejected(
    recorded: EngineKind,
    requested: EngineKind,
    directory_in_use: bool,
) -> bool {
    recorded != requested && directory_in_use
}

/// Decides whether a requested engine may open the recorded data
/// directory.
pub fn engine_switch_rejected(
    recorded: EngineKind,
    requested: EngineKind,
    directory_in_use: bool,
) -> (r: bool)
    ensures
        r == spec_engine_switch_rejected(recorded, requested, directory_in_use),
{
    recorded != requested && directory_in_use
}

/// A key/value storage engine.
///
/// `inv` is the engine's validity predicate; every operation
/// preserves it, so a server can drive any engine without knowing its
/// internals.  Removing an absent key must fail with
/// [`KvsError::KeyNotFound`].
pub trait KvsEngine: Sized {
    /// The engine's validity predicate; engines without one are
    /// always valid.
    open spec fn inv(&self) -> bool {
        true
    }

    /// Sets the value of a key, overwriting any previous value.
    fn set(&mut self, key: String, value: String) -> (r: Result<(), KvsError>)
        requires
            old(self).inv(),
        ensures
            final(self).inv(),
    ;

    /// Gets the value of a key, `None` when absent.
    fn get(&self, key: String) -> (r: Result<Option<String>, KvsError>)
        requires
            self.inv(),
    ;

    /// Removes a key.
    fn remove(&mut self, key: String) -> (r: Result<(), KvsError>)
        requires
            old(self).inv(),
        ensures
            final(self).inv(),
    ;
}

} // verus!

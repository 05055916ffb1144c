//! The persistence boundary: the miner hands a snapshot of its state to a
//! collaborator as an opaque byte blob, and asks it back on start-up. The
//! host application implements the handler (a file, a database, ...); the
//! miner only decides when to save.

use vstd::prelude::*;

verus! {

/// An error of the persistence collaborator, as a plain message.
#[derive(Debug)]
pub struct PersistenceError {
    pub message: String,
}

/// A store for the miner's serialized state. Implemented by the host
/// application; the trait makes no promise about what a store does with the
/// bytes beyond the signatures.
pub trait PersistenceHandler {
    /// Stores one snapshot, replacing any earlier one.
    fn save_state(&mut self, state: &Vec<u8>) -> Result<(), PersistenceError>;

    /// The last stored snapshot, `None` when nothing was stored.
    fn load_state(&mut self) -> Result<Option<Vec<u8>>, PersistenceError>;
}

} // verus!

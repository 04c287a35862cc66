//! The failure kinds of the engine. Every kind is fatal: the trie keeps no
//! undo log, so a run that hits one can only restart from genesis.

use vstd::prelude::*;

verus! {

#[derive(Clone, Copy, Debug, PartialEq, Eq, Structural)]
pub enum StateError {
    /// The genesis allocation does not reproduce the declared genesis root.
    GenesisRootMismatch,
    /// An account encoding is truncated, over-long, or otherwise not the
    /// canonical form.
    MalformedAccount,
    /// The block handed in is not the next expected one; nothing was mutated.
    OutOfOrderBlock,
    /// The recomputed root differs from the block's declared state root.
    StateRootMismatch,
    /// A balance credit passed the largest representable balance.
    InvariantViolation,
}

} // verus!

//! The recognized configuration of a replay run.

use vstd::prelude::*;

verus! {

/// The options of a run: the target block height, where artifacts go, where
/// the genesis allocation comes from, the block-source endpoint, and the
/// toggle that disables per-block full-state proofs (the run-wide archive
/// is unaffected by it).
#[derive(Clone, Debug)]
pub struct Args {
    pub blocks: u64,
    pub output_directory: String,
    pub genesis_file: String,
    pub rpc_url: String,
    pub disable_full_state_proof_per_block: bool,
}

} // verus!

//! Staging of chain-targeted side effects: a bounded binary codec for batches
//! of side effects, and a registry that stages each batch under a fresh
//! execution identifier until it is committed or reverted.
use vstd::prelude::*;

pub mod codec;
pub mod registry;
pub mod types;

verus! {

pub use crate::codec::{
    decode_batch, decode_chain_id, encode_batch, encode_chain_id, encode_side_effect,
};
pub use crate::registry::{batch_outcome, new_test_ext, Pallet, PalletModel, UpdateSideEffects};
pub use crate::types::{
    Action, ChainId, Config, Error, Event, ExecutionId, SideEffect, SideEffectModel,
};

} // verus!

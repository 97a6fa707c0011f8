use vstd::prelude::*;

verus! {

/// Identifier of a staged batch.
pub type ExecutionId = u32;

/// Target chain of a side effect, encoded as a single byte.
#[derive(Clone, Copy, Debug, PartialEq, Eq, Structural)]
pub enum ChainId {
    Polkadot,
    Kusama,
    Rococo,
    T3rn,
}

/// Kind of operation of a side effect, encoded as a single byte.
#[derive(Clone, Copy, Debug, PartialEq, Eq, Structural)]
pub enum Action {
    Swap,
    Tran,
    MultiTran,
}

/// A volatile side effect: an action on a chain with opaque byte arguments.
#[derive(Clone, Debug)]
pub struct SideEffect {
    pub chain: ChainId,
    pub action: Action,
    pub args: Vec<Vec<u8>>,
}

/// Mathematical value of a side effect.
pub struct SideEffectModel {
    pub chain: ChainId,
    pub action: Action,
    pub args: Seq<Seq<u8>>,
}

impl View for SideEffect {
    type V = SideEffectModel;

    open spec fn view(&self) -> SideEffectModel {
        SideEffectModel { chain: self.chain, action: self.action, args: args_model(self.args@) }
    }
}

pub open spec fn args_model(args: Seq<Vec<u8>>) -> Seq<Seq<u8>> {
    args.map_values(|a: Vec<u8>| a@)
}

pub open spec fn batch_model(batch: Seq<SideEffect>) -> Seq<SideEffectModel> {
    batch.map_values(|e: SideEffect| e@)
}

impl SideEffect {
    pub fn new(id: ChainId, action: Action, args: Vec<Vec<u8>>) -> (r: SideEffect)
        ensures
            r.chain == id,
            r.action == action,
            r.args@ == args@,
            r@.args == args_model(args@),
    {
        SideEffect { chain: id, action, args }
    }
}

/// The bounds that every staged side effect respects.
#[derive(Clone, Copy, Debug, PartialEq, Eq, Structural)]
pub struct Config {
    /// Largest number of arguments in one side effect.
    pub max_args: u32,
    /// Largest number of bytes in one argument.
    pub max_bytes_per_arg: u32,
    /// Largest number of side effects in one batch.
    pub max_side_effects: u32,
}

/// Why a payload was not staged.
#[derive(Clone, Copy, Debug, PartialEq, Eq, Structural)]
pub enum Error {
    /// The bytes are not the encoding of a batch within the bounds.
    CannotDecodeValue,
    /// The bytes encode a batch with no side effect.
    DecodesToNothing,
    /// The execution identifiers are exhausted.
    Overflow,
}

/// Notifications that the registry records.
#[derive(Clone, Copy, Debug, PartialEq, Eq, Structural)]
pub enum Event {
    /// A batch was staged under `execution_id`.
    SideEffectsPending { execution_id: ExecutionId },
    /// The batch under `execution_id` was executed in full and removed.
    SideEffectsCommitted { execution_id: ExecutionId },
    /// The batch under `execution_id` was discarded without execution.
    SideEffectsReverted { execution_id: ExecutionId },
    /// Executing the batch under `execution_id` failed at side effect `index`;
    /// none of its side effects took effect.
    SideEffectFailed { execution_id: ExecutionId, index: u32 },
}

} // verus!

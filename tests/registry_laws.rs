use volatile_effects::{
    batch_outcome, encode_batch, encode_side_effect, new_test_ext, Action, ChainId, Config, Error,
    Event, Pallet, SideEffect, UpdateSideEffects,
};

fn wide_config() -> Config {
    Config { max_args: 5, max_bytes_per_arg: 100_000, max_side_effects: 5 }
}

#[test]
fn round_trip_batch() {
    let pallet = new_test_ext();
    let batch = vec![
        SideEffect::new(ChainId::Kusama, Action::Tran, vec![vec![7; 32], vec![], vec![1, 2, 3]]),
        SideEffect::new(ChainId::Rococo, Action::Swap, vec![]),
        SideEffect::new(ChainId::T3rn, Action::MultiTran, vec![vec![9]; 5]),
    ];
    let bytes = encode_batch(&batch);
    let decoded = pallet.decode_to_side_effects(bytes).unwrap();
    assert_eq!(decoded.len(), 3);
    for (a, b) in decoded.iter().zip(batch.iter()) {
        assert_eq!(a.chain, b.chain);
        assert_eq!(a.action, b.action);
        assert_eq!(a.args, b.args);
    }
}

#[test]
fn compact_prefix_widths() {
    let e64 = SideEffect::new(ChainId::Polkadot, Action::Swap, vec![vec![5; 64]]);
    let bytes = encode_side_effect(&e64);
    assert_eq!(&bytes[..5], &[0, 0, 4, 1, 1]);
    assert_eq!(bytes.len(), 5 + 64);

    let e16384 = SideEffect::new(ChainId::Polkadot, Action::Swap, vec![vec![5; 16384]]);
    let bytes = encode_side_effect(&e16384);
    assert_eq!(&bytes[..7], &[0, 0, 4, 2, 0, 1, 0]);

    let pallet = Pallet::new(wide_config());
    let decoded = pallet.decode_to_side_effects(encode_batch(&vec![e16384.clone()])).unwrap();
    assert_eq!(decoded[0].args[0].len(), 16384);
}

#[test]
fn argument_over_bound_is_rejected() {
    let pallet = new_test_ext();
    let long = SideEffect::new(ChainId::Polkadot, Action::Swap, vec![vec![0; 33]]);
    let bytes = encode_batch(&vec![long]);
    assert_eq!(pallet.decode_to_side_effects(bytes).unwrap_err(), Error::CannotDecodeValue);

    let exact = SideEffect::new(ChainId::Polkadot, Action::Swap, vec![vec![0; 32]]);
    assert!(pallet.decode_to_side_effects(encode_batch(&vec![exact])).is_ok());
}

#[test]
fn too_many_arguments_is_rejected() {
    let pallet = new_test_ext();
    let six = SideEffect::new(ChainId::Polkadot, Action::Swap, vec![vec![1]; 6]);
    let bytes = encode_batch(&vec![six]);
    assert_eq!(pallet.decode_to_side_effects(bytes).unwrap_err(), Error::CannotDecodeValue);
}

#[test]
fn too_many_side_effects_is_rejected() {
    let pallet = new_test_ext();
    let e = SideEffect::new(ChainId::Polkadot, Action::Swap, vec![]);
    let bytes = encode_batch(&vec![e.clone(); 6]);
    assert_eq!(pallet.decode_to_side_effects(bytes).unwrap_err(), Error::CannotDecodeValue);
    assert!(pallet.decode_to_side_effects(encode_batch(&vec![e; 5])).is_ok());
}

#[test]
fn malformed_bytes_are_rejected() {
    let pallet = new_test_ext();
    let cases: Vec<Vec<u8>> = vec![
        vec![],
        vec![4, 0, 0],
        vec![4, 0, 0, 0, 0],
        vec![4, 4, 0, 0],
        vec![4, 0, 3, 0],
        vec![4, 0, 0, 4],
        vec![4, 0, 0, 4, 8, 1],
        vec![5, 0, 0, 0, 0],
        vec![3, 1, 0, 0, 0, 0, 0, 0],
    ];
    for bytes in cases {
        assert_eq!(pallet.decode_to_side_effects(bytes).unwrap_err(), Error::CannotDecodeValue);
    }
}

#[test]
fn empty_batch_is_rejected() {
    let pallet = new_test_ext();
    assert_eq!(pallet.decode_to_side_effects(vec![0]).unwrap_err(), Error::DecodesToNothing);
    assert_eq!(encode_batch(&vec![]), vec![0u8]);
    assert_eq!(pallet.decode_to_side_effects(vec![0, 0]).unwrap_err(), Error::CannotDecodeValue);
}

#[test]
fn identifiers_increase_without_gaps() {
    let mut pallet = new_test_ext();
    assert_eq!(pallet.add_pending_side_effects(vec![4, 0, 0, 0]), Ok(0));
    assert_eq!(pallet.add_pending_side_effects(vec![0]), Err(Error::DecodesToNothing));
    assert_eq!(pallet.execution_counter(), 1);
    assert_eq!(pallet.add_pending_side_effects(vec![4, 1, 1, 0]), Ok(1));
    assert_eq!(pallet.add_pending_side_effects(vec![4, 2, 2, 0]), Ok(2));
    assert_eq!(pallet.execution_counter(), 3);
    assert_eq!(pallet.events().len(), 3);
}

#[test]
fn failed_staging_changes_nothing() {
    let mut pallet = new_test_ext();
    assert_eq!(pallet.add_pending_side_effects(vec![9, 9]), Err(Error::CannotDecodeValue));
    assert_eq!(pallet.execution_counter(), 0);
    assert!(pallet.events().is_empty());
    assert_eq!(pallet.last_event(), None);
}

#[test]
fn revert_is_idempotent() {
    let mut pallet = new_test_ext();
    assert_eq!(pallet.add_pending_side_effects(vec![4, 0, 0, 0]), Ok(0));
    pallet.revert_side_effects(0);
    assert!(pallet.pending_side_effects(0).is_none());
    pallet.revert_side_effects(0);
    assert!(pallet.pending_side_effects(0).is_none());
    assert_eq!(pallet.execution_counter(), 1);
    pallet.revert_side_effects(42);
    assert_eq!(pallet.last_event(), Some(Event::SideEffectsReverted { execution_id: 42 }));
    assert_eq!(pallet.execution_counter(), 1);
}

#[test]
fn failed_execution_consumes_batch_and_reports_index() {
    let mut pallet = new_test_ext();
    assert_eq!(pallet.add_pending_side_effects(vec![12, 0, 0, 0, 1, 1, 0, 2, 2, 0]), Ok(0));
    let len = pallet.pending_side_effects(0).unwrap().len();
    assert_eq!(len, 3);
    let outcome = batch_outcome(&vec![true, false, false]);
    assert_eq!(outcome, Err(1));
    assert!(pallet.execute_side_effects(0, outcome));
    assert_eq!(pallet.last_event(), Some(Event::SideEffectFailed { execution_id: 0, index: 1 }));
    assert!(!pallet.events().contains(&Event::SideEffectsCommitted { execution_id: 0 }));
    assert!(pallet.pending_side_effects(0).is_none());
}

#[test]
fn successful_execution_commits() {
    let mut pallet = new_test_ext();
    assert_eq!(pallet.add_pending_side_effects(vec![4, 0, 0, 0]), Ok(0));
    let outcome = batch_outcome(&vec![true]);
    assert_eq!(outcome, Ok(()));
    assert!(pallet.execute_side_effects(0, outcome));
    assert_eq!(pallet.last_event(), Some(Event::SideEffectsCommitted { execution_id: 0 }));
    assert!(pallet.pending_side_effects(0).is_none());
    assert!(!pallet.execute_side_effects(0, Ok(())));
    assert_eq!(pallet.events().len(), 2);
}

#[test]
fn batch_outcome_first_failure() {
    assert_eq!(batch_outcome(&vec![]), Ok(()));
    assert_eq!(batch_outcome(&vec![false, false]), Err(0));
    assert_eq!(batch_outcome(&vec![true, true, false]), Err(2));
}

#[test]
fn stage_then_revert_single_swap() {
    let mut pallet = new_test_ext();
    assert_eq!(pallet.add_pending_side_effects(vec![4, 0, 0, 0]), Ok(0));
    assert_eq!(pallet.last_event(), Some(Event::SideEffectsPending { execution_id: 0 }));
    let batch = pallet.pending_side_effects(0).unwrap();
    assert_eq!(batch.len(), 1);
    assert_eq!(batch[0].chain, ChainId::Polkadot);
    assert_eq!(batch[0].action, Action::Swap);
    assert!(batch[0].args.is_empty());
    pallet.revert_side_effects(0);
    assert_eq!(pallet.last_event(), Some(Event::SideEffectsReverted { execution_id: 0 }));
    assert!(pallet.pending_side_effects(0).is_none());
}

#[test]
fn two_batches_are_independent() {
    let mut pallet = new_test_ext();
    assert_eq!(pallet.add_pending_side_effects(vec![4, 0, 0, 0]), Ok(0));
    assert_eq!(pallet.add_pending_side_effects(vec![4, 3, 2, 4, 4, 7]), Ok(1));
    pallet.revert_side_effects(0);
    assert!(pallet.pending_side_effects(0).is_none());
    let batch = pallet.pending_side_effects(1).unwrap();
    assert_eq!(batch[0].chain, ChainId::T3rn);
    assert_eq!(batch[0].action, Action::MultiTran);
    assert_eq!(batch[0].args, vec![vec![7u8]]);
}

use volatile_effects::{
    decode_chain_id, encode_batch, encode_chain_id, encode_side_effect, new_test_ext, Action,
    ChainId, Error, Event, SideEffect, UpdateSideEffects,
};

fn raw_bytes_two_with_args() -> Vec<u8> {
    vec![
        8, 3, 2, 16, 128, 0, 0, 0, 0, 0, 0, 0, 0, 0, 0, 0, 0, 0, 0, 0, 0, 0, 0, 0, 0, 0, 0, 0,
        0, 0, 0, 0, 0, 0, 0, 0, 0, 128, 0, 0, 0, 0, 0, 0, 0, 0, 0, 0, 0, 0, 0, 0, 0, 0, 0, 0,
        0, 0, 0, 0, 0, 0, 0, 0, 0, 0, 0, 0, 0, 0, 4, 1, 4, 1, 3, 2, 16, 128, 0, 0, 0, 0, 0, 0,
        0, 0, 0, 0, 0, 0, 0, 0, 0, 0, 0, 0, 0, 0, 0, 0, 0, 0, 0, 0, 0, 0, 0, 0, 0, 0, 128, 0,
        0, 0, 0, 0, 0, 0, 0, 0, 0, 0, 0, 0, 0, 0, 0, 0, 0, 0, 0, 0, 0, 0, 0, 0, 0, 0, 0, 0, 0,
        0, 0, 4, 1, 4, 1,
    ]
}

#[test]
fn encode_decode_sanity_check() {
    let encoded_chain = encode_chain_id(ChainId::Polkadot);
    assert_eq!(encoded_chain, [0_u8]);

    let encoded_chain2 = encode_chain_id(ChainId::T3rn);
    assert_eq!(encoded_chain2, [3_u8]);

    let decoded_chain = decode_chain_id(&encoded_chain).unwrap();
    assert_eq!(decoded_chain, ChainId::Polkadot);

    let decoded_chain = decode_chain_id(&encoded_chain2).unwrap();
    assert_eq!(decoded_chain, ChainId::T3rn);
}

#[test]
fn decode_to_side_effects_fails() {
    let pallet = new_test_ext();
    let raw_bytes: Vec<u8> = vec![0];
    assert_eq!(pallet.decode_to_side_effects(raw_bytes).unwrap_err(), Error::DecodesToNothing);

    let raw_bytes = vec![100; 1000];
    assert_eq!(pallet.decode_to_side_effects(raw_bytes).unwrap_err(), Error::CannotDecodeValue);
}

#[test]
fn decode_to_side_effect_works() {
    let effect = SideEffect::new(ChainId::Polkadot, Action::Swap, vec![]);
    let zero_account: Vec<u8> = vec![0; 32];
    let example_args: Vec<Vec<u8>> =
        vec![zero_account.clone(), zero_account.clone(), vec![1], vec![1]];
    let effect_with_args = SideEffect::new(ChainId::T3rn, Action::MultiTran, example_args.clone());

    let two_effects = vec![effect.clone(); 2];
    let two_effect_with_args = vec![effect_with_args.clone(); 2];

    let raw_bytes_effect: Vec<u8> = vec![0, 0, 0];
    let raw_bytes_effect_args: Vec<u8> = vec![
        3, 2, 16, 128, 0, 0, 0, 0, 0, 0, 0, 0, 0, 0, 0, 0, 0, 0, 0, 0, 0, 0, 0, 0, 0, 0, 0, 0, 0,
        0, 0, 0, 0, 0, 0, 0, 128, 0, 0, 0, 0, 0, 0, 0, 0, 0, 0, 0, 0, 0, 0, 0, 0, 0, 0, 0, 0, 0,
        0, 0, 0, 0, 0, 0, 0, 0, 0, 0, 0, 4, 1, 4, 1,
    ];
    let raw_bytes_two: Vec<u8> = vec![8, 0, 0, 0, 0, 0, 0];

    assert_eq!(raw_bytes_effect, encode_side_effect(&effect));
    assert_eq!(raw_bytes_effect_args, encode_side_effect(&effect_with_args));

    assert_eq!(raw_bytes_two, encode_batch(&two_effects));
    assert_eq!(raw_bytes_two_with_args(), encode_batch(&two_effect_with_args));
}

#[test]
fn test_update_side_effects_trait() {
    let mut pallet = new_test_ext();
    let raw_bytes: Vec<u8> = vec![4, 0, 0, 0];
    let zero_account: Vec<u8> = vec![0; 32];

    assert!(pallet.add_pending_side_effects(raw_bytes).is_ok());
    assert_eq!(pallet.execution_counter(), 1);
    assert_eq!(pallet.last_event(), Some(Event::SideEffectsPending { execution_id: 0 }));
    let side_effect_vec = pallet.pending_side_effects(0).unwrap();
    let side_effect = &side_effect_vec[0];

    assert_eq!(side_effect.action, Action::Swap);
    assert_eq!(side_effect.chain, ChainId::Polkadot);
    assert_eq!(side_effect.args, Vec::<Vec<u8>>::new());

    assert!(pallet.add_pending_side_effects(raw_bytes_two_with_args()).is_ok());
    assert_eq!(pallet.execution_counter(), 2);
    assert_eq!(pallet.last_event(), Some(Event::SideEffectsPending { execution_id: 1 }));
    let side_effect_vec = pallet.pending_side_effects(1).unwrap();
    assert_eq!(side_effect_vec.len(), 2);

    let side_effect_1 = &side_effect_vec[0];
    assert_eq!(side_effect_1.chain, ChainId::T3rn);
    assert_eq!(side_effect_1.action, Action::MultiTran);
    assert_eq!(
        side_effect_1.args.clone(),
        vec![zero_account.clone(), zero_account.clone(), vec![1], vec![1]]
    );

    pallet.revert_side_effects(0);
    assert_eq!(pallet.last_event(), Some(Event::SideEffectsReverted { execution_id: 0 }));
    assert!(pallet.pending_side_effects(0).is_none());
}

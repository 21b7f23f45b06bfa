use circuits::field::{
    conditionally_reverse, conditionally_select, fe_add, fe_eq, fe_fits_bits, fe_from_u64,
    fe_is_zero, fe_one, fe_sub, fe_zero, Fe,
};
use circuits::hashing::{hash_number, hash_three_numbers, hash_two_numbers};
use circuits::merkle::{compute_commit, generate_witness_path_and_commit, get_num_from_boolean, hash_commit};
use circuits::builder::{
    alloc_boolean, alloc_input_boolean, alloc_input_location, alloc_location, alloc_num,
    alloc_state, create_range_table, inner_circuit_main_gate_part, num_alloc_input, range_check,
    realloc_state, send_tokens, Builder, SynthError,
};
use circuits::circuits::{
    create_acc_circuit_inner, proof_bug, recover_state, transaction_circuit_inner, verify_sig,
    ApplyTxCircuit, CreateAccCircuit, HackProofCircuit, AMOUNT_RANGE_TABLE,
};
use circuits::{ACC_DEPTH, ACC_NUM, AMOUNT_LOG_LIMIT};

fn fes(vals: &[(usize, u64)]) -> Vec<Fe> {
    let mut v = vec![fe_zero(); ACC_NUM];
    for &(i, x) in vals {
        v[i] = fe_from_u64(x);
    }
    v
}

fn some_state(v: &[Fe]) -> Vec<Option<Fe>> {
    v.iter().map(|x| Some(*x)).collect()
}

fn location(index: usize) -> Vec<bool> {
    (0..ACC_DEPTH).map(|i| (index >> i) & 1 == 1).collect()
}

fn some_location(bits: &[bool]) -> Vec<Option<bool>> {
    bits.iter().map(|b| Some(*b)).collect()
}

fn state_commitment(pks: &Vec<Fe>, ams: &Vec<Fe>) -> Fe {
    hash_two_numbers(&hash_commit(pks), &hash_commit(ams))
}

#[test]
fn field_arithmetic_basics() {
    let two = fe_from_u64(2);
    let three = fe_from_u64(3);
    let five = fe_from_u64(5);
    assert!(fe_eq(&fe_add(&two, &three), &five));
    assert!(fe_eq(&fe_sub(&five, &three), &two));
    assert!(fe_eq(&fe_one(), &fe_from_u64(1)));
    assert!(fe_is_zero(&fe_zero()));
    // subtraction below zero wraps around the field order, not to zero
    let minus_one = fe_sub(&fe_zero(), &fe_one());
    assert!(!fe_is_zero(&minus_one));
    assert!(fe_eq(&fe_add(&minus_one, &fe_one()), &fe_zero()));
}

#[test]
fn range_membership() {
    assert!(fe_fits_bits(&fe_from_u64(255), AMOUNT_LOG_LIMIT));
    assert!(!fe_fits_bits(&fe_from_u64(256), AMOUNT_LOG_LIMIT));
    assert!(fe_fits_bits(&fe_zero(), AMOUNT_LOG_LIMIT));
    // a wrapped "negative" value is far outside any table
    assert!(!fe_fits_bits(&fe_sub(&fe_zero(), &fe_one()), AMOUNT_LOG_LIMIT));
}

#[test]
fn hash_is_not_identity() {
    let one = fe_one();
    assert!(!fe_eq(&hash_number(&one), &one));
    let h = hash_two_numbers(&one, &fe_zero());
    assert!(!fe_eq(&h, &one));
    // order matters
    let h2 = hash_two_numbers(&fe_zero(), &one);
    assert!(!fe_eq(&h, &h2));
}

#[test]
fn select_and_reverse_primitives() {
    let a = fe_from_u64(10);
    let b = fe_from_u64(20);
    assert!(fe_eq(&conditionally_select(true, &a, &b), &a));
    assert!(fe_eq(&conditionally_select(false, &a, &b), &b));
    let (x, y) = conditionally_reverse(a, b, true);
    assert!(fe_eq(&x, &b) && fe_eq(&y, &a));
    let (x, y) = conditionally_reverse(a, b, false);
    assert!(fe_eq(&x, &a) && fe_eq(&y, &b));
}

#[test]
fn index_mapping_first_bit_is_one() {
    let mut bits = vec![false; ACC_DEPTH];
    bits[0] = true;
    assert_eq!(get_num_from_boolean(&bits), 1);
}

#[test]
fn index_mapping_last_bit_is_highest() {
    let mut bits = vec![false; ACC_DEPTH];
    bits[ACC_DEPTH - 1] = true;
    assert_eq!(get_num_from_boolean(&bits), 128);
}

#[test]
fn index_mapping_mixed() {
    assert_eq!(get_num_from_boolean(&vec![]), 0);
    assert_eq!(get_num_from_boolean(&location(0)), 0);
    assert_eq!(get_num_from_boolean(&location(37)), 37);
    assert_eq!(get_num_from_boolean(&location(255)), 255);
}

#[test]
fn root_consistency_across_paths() {
    let mut leaves = Vec::new();
    for i in 0..ACC_NUM {
        leaves.push(fe_from_u64(i as u64 * 3 + 1));
    }
    let full = hash_commit(&leaves);
    for &idx in &[0usize, 1, 37, 128, 255] {
        let loc = location(idx);
        let (path, fast_root) = generate_witness_path_and_commit(&loc, &leaves);
        assert!(fe_eq(&fast_root, &full));
        let recomputed = compute_commit(&loc, &path);
        assert!(fe_eq(&recomputed, &full));
        assert!(fe_eq(&path[0], &leaves[idx]));
    }
}

#[test]
fn creation_round_trip_is_deterministic() {
    let pks = fes(&[]);
    let ams = fes(&[]);
    let old_commit = state_commitment(&pks, &ams);
    let new_pk = fe_from_u64(77);
    let mut new_pks = pks.clone();
    new_pks[0] = new_pk;
    let new_commit = state_commitment(&new_pks, &ams);

    let circuit = CreateAccCircuit {
        state_pub_keys: some_state(&pks),
        state_amounts: some_state(&ams),
        new_location: some_location(&location(0)),
        new_pub_key: Some(new_pk),
        old_state_commit: Some(old_commit),
        new_state_commit: Some(new_commit),
        require_empty_slot: true,
    };
    let mut cs = Builder::new();
    assert_eq!(circuit.synthesize(&mut cs), Ok(()));

    // a second synthesis with the same parameters reproduces the same
    // commitment: no hidden randomness anywhere
    let c1 = create_acc_circuit_inner(&pks, &ams, &location(0), &old_commit, &new_pk, true)
        .unwrap();
    let c2 = create_acc_circuit_inner(&pks, &ams, &location(0), &old_commit, &new_pk, true)
        .unwrap();
    assert!(fe_eq(&c1, &c2));
    assert!(fe_eq(&c1, &new_commit));
}

#[test]
fn creation_empty_slot_policy() {
    let pks = fes(&[(4, 999)]);
    let ams = fes(&[]);
    let old_commit = state_commitment(&pks, &ams);
    let new_pk = fe_from_u64(77);
    // slot 4 is occupied: the strict variant refuses, the permissive one accepts
    let strict = create_acc_circuit_inner(&pks, &ams, &location(4), &old_commit, &new_pk, true);
    assert_eq!(strict, Err(SynthError::EqualityViolation));
    let lax = create_acc_circuit_inner(&pks, &ams, &location(4), &old_commit, &new_pk, false);
    assert!(lax.is_ok());
}

#[test]
fn creation_wrong_old_commitment() {
    let pks = fes(&[]);
    let ams = fes(&[]);
    let bad = fe_from_u64(123456);
    let r = create_acc_circuit_inner(&pks, &ams, &location(0), &bad, &fe_one(), false);
    assert_eq!(r, Err(SynthError::EqualityViolation));
}

fn transfer_fixture() -> (Vec<Fe>, Vec<Fe>, Fe, Fe, Builder) {
    let signature = fe_from_u64(42);
    let sender_pk = hash_number(&signature);
    let mut pks = fes(&[]);
    pks[3] = sender_pk;
    let ams = fes(&[(3, 5), (9, 7)]);
    let old_commit = state_commitment(&pks, &ams);
    let mut cs = Builder::new();
    create_range_table(&mut cs, AMOUNT_RANGE_TABLE, AMOUNT_LOG_LIMIT).unwrap();
    (pks, ams, old_commit, signature, cs)
}

#[test]
fn transfer_succeeds_and_conserves() {
    let (pks, ams, old_commit, signature, cs) = transfer_fixture();
    let amount = fe_from_u64(2);
    let new_commit = transaction_circuit_inner(
        &cs,
        &pks,
        &ams,
        &location(3),
        &location(9),
        &old_commit,
        &signature,
        &amount,
        AMOUNT_RANGE_TABLE,
    )
    .unwrap();

    // the new commitment is the full-array commitment of the updated state
    let expected = fes(&[(3, 3), (9, 9)]);
    assert!(fe_eq(&new_commit, &state_commitment(&pks, &expected)));

    // recover the post-transition arrays and check conservation slot by slot
    let mut cs2 = Builder::new();
    let (npks, nams) = recover_state(
        &mut cs2,
        &new_commit,
        &pks,
        &ams,
        &fe_one(),
        &signature,
        &amount,
        &location(3),
        &location(9),
    )
    .unwrap();
    assert_eq!(npks, pks);
    let mut before_sum = fe_zero();
    let mut after_sum = fe_zero();
    for i in 0..ACC_NUM {
        before_sum = fe_add(&before_sum, &ams[i]);
        after_sum = fe_add(&after_sum, &nams[i]);
        if i != 3 && i != 9 {
            assert_eq!(nams[i], ams[i]);
        }
    }
    assert!(fe_eq(&before_sum, &after_sum));
    assert_eq!(nams[3], fe_from_u64(3));
    assert_eq!(nams[9], fe_from_u64(9));
    assert!(fe_eq(&fe_sub(&nams[9], &ams[9]), &amount));
}

#[test]
fn transfer_amount_too_wide_fails() {
    let (pks, ams, old_commit, signature, cs) = transfer_fixture();
    // 256 does not fit the 8-bit range table
    let amount = fe_from_u64(256);
    let r = transaction_circuit_inner(
        &cs,
        &pks,
        &ams,
        &location(3),
        &location(9),
        &old_commit,
        &signature,
        &amount,
        AMOUNT_RANGE_TABLE,
    );
    assert_eq!(r, Err(SynthError::RangeViolation));
}

#[test]
fn transfer_overdraft_fails() {
    let (pks, ams, old_commit, signature, cs) = transfer_fixture();
    // 6 exceeds the sender's balance of 5: the difference wraps around the
    // field order and the range check rejects it
    let amount = fe_from_u64(6);
    let r = transaction_circuit_inner(
        &cs,
        &pks,
        &ams,
        &location(3),
        &location(9),
        &old_commit,
        &signature,
        &amount,
        AMOUNT_RANGE_TABLE,
    );
    assert_eq!(r, Err(SynthError::RangeViolation));
}

#[test]
fn transfer_bad_signature_fails() {
    let (pks, ams, old_commit, _signature, cs) = transfer_fixture();
    let forged = fe_from_u64(43);
    let r = transaction_circuit_inner(
        &cs,
        &pks,
        &ams,
        &location(3),
        &location(9),
        &old_commit,
        &forged,
        &fe_from_u64(2),
        AMOUNT_RANGE_TABLE,
    );
    assert_eq!(r, Err(SynthError::EqualityViolation));
}

#[test]
fn transfer_to_self_is_rejected() {
    let (pks, ams, old_commit, signature, cs) = transfer_fixture();
    let r = transaction_circuit_inner(
        &cs,
        &pks,
        &ams,
        &location(3),
        &location(3),
        &old_commit,
        &signature,
        &fe_from_u64(2),
        AMOUNT_RANGE_TABLE,
    );
    assert_eq!(r, Err(SynthError::EqualityViolation));
}

#[test]
fn transfer_to_empty_recipient_is_rejected() {
    let (pks, ams, old_commit, signature, cs) = transfer_fixture();
    // slot 10 holds a zero balance
    let r = transaction_circuit_inner(
        &cs,
        &pks,
        &ams,
        &location(3),
        &location(10),
        &old_commit,
        &signature,
        &fe_from_u64(2),
        AMOUNT_RANGE_TABLE,
    );
    assert_eq!(r, Err(SynthError::EqualityViolation));
}

#[test]
fn apply_tx_circuit_end_to_end() {
    let (pks, ams, old_commit, signature, _) = transfer_fixture();
    let amount = fe_from_u64(2);
    let expected = fes(&[(3, 3), (9, 9)]);
    let new_commit = state_commitment(&pks, &expected);
    let circuit = ApplyTxCircuit {
        state_pub_keys: some_state(&pks),
        state_amounts: some_state(&ams),
        from_location: some_location(&location(3)),
        to_location: some_location(&location(9)),
        amount: Some(amount),
        signature: Some(signature),
        old_state_commit: Some(old_commit),
        new_state_commit: Some(new_commit),
    };
    let mut cs = Builder::new();
    assert_eq!(circuit.synthesize(&mut cs), Ok(()));

    // public inputs stand in their documented binding order
    assert_eq!(cs.publics.len(), 3 + 2 * ACC_DEPTH);
    assert_eq!(cs.publics[0], old_commit);
    assert_eq!(cs.publics[1], new_commit);
    assert_eq!(cs.publics[2], amount);
    for (i, b) in location(3).iter().enumerate() {
        let expected_bit = if *b { fe_one() } else { fe_zero() };
        assert_eq!(cs.publics[3 + i], expected_bit);
    }
    for (i, b) in location(9).iter().enumerate() {
        let expected_bit = if *b { fe_one() } else { fe_zero() };
        assert_eq!(cs.publics[3 + ACC_DEPTH + i], expected_bit);
    }

    // a wrong claimed commitment is refused
    let bad = ApplyTxCircuit { new_state_commit: Some(old_commit), ..circuit };
    let mut cs2 = Builder::new();
    assert_eq!(bad.synthesize(&mut cs2), Err(SynthError::EqualityViolation));
}

fn hack_circuit(total_supply: u64) -> HackProofCircuit {
    let signature = fe_from_u64(42);
    let sender_pk = hash_number(&signature);
    let mut pks = fes(&[]);
    pks[3] = sender_pk;
    // two nonzero balances summing to 12
    let ams = fes(&[(3, 5), (9, 7)]);
    let commit = state_commitment(&pks, &ams);
    HackProofCircuit {
        state_commit: Some(commit),
        state_pub_keys: some_state(&pks),
        state_amounts: some_state(&ams),
        total_supply: Some(fe_from_u64(total_supply)),
        // type zero: the account-creation outcome is selected
        tx_type: Some(fe_zero()),
        first_location: some_location(&location(3)),
        second_location: some_location(&location(9)),
        // doubles as the created public key and the transfer signature
        first_parameter: Some(signature),
        // the transfer amount evaluated on the discarded branch
        second_parameter: Some(fe_from_u64(2)),
    }
}

#[test]
fn invariant_search_finds_broken_supply() {
    // balances sum to 12, claimed supply 100: the meta-circuit is satisfied
    let circuit = hack_circuit(100);
    let mut cs = Builder::new();
    assert_eq!(circuit.synthesize(&mut cs), Ok(()));
    assert_eq!(cs.publics.len(), 2);
    assert_eq!(cs.publics[0], circuit.state_commit.unwrap());
    assert_eq!(cs.publics[1], circuit.total_supply.unwrap());
}

#[test]
fn invariant_search_rejects_conserved_supply() {
    // balances sum to 12 and the claimed supply is 12: the final
    // "not equal" assertion fails
    let circuit = hack_circuit(12);
    let mut cs = Builder::new();
    assert_eq!(circuit.synthesize(&mut cs), Err(SynthError::EqualityViolation));
}

#[test]
fn proof_bug_direct() {
    let pks = fes(&[]);
    let ams = fes(&[(0, 5), (1, 7)]);
    assert_eq!(proof_bug(&pks, &ams, &fe_from_u64(100)), Ok(()));
    assert_eq!(
        proof_bug(&pks, &ams, &fe_from_u64(12)),
        Err(SynthError::EqualityViolation)
    );
    let short: Vec<Fe> = vec![fe_zero(); 3];
    assert_eq!(
        proof_bug(&short, &ams, &fe_zero()),
        Err(SynthError::StructuralMismatch)
    );
}

#[test]
fn verify_sig_placeholder_scheme() {
    let signature = fe_from_u64(42);
    let pk = hash_number(&signature);
    assert_eq!(verify_sig(&pk, &signature), Ok(()));
    assert_eq!(
        verify_sig(&signature, &signature),
        Err(SynthError::EqualityViolation)
    );
}

#[test]
fn missing_witnesses_are_reported() {
    let mut cs = Builder::new();
    assert_eq!(num_alloc_input(&mut cs, &None), Err(SynthError::MissingWitness));
    assert_eq!(alloc_num(&mut cs, &None), Err(SynthError::MissingWitness));
    assert_eq!(alloc_boolean(&mut cs, None), Err(SynthError::MissingWitness));
    assert_eq!(alloc_input_boolean(&mut cs, None), Err(SynthError::MissingWitness));
    let mut loc = some_location(&location(0));
    loc[5] = None;
    assert_eq!(alloc_input_location(&mut cs, &loc), Err(SynthError::MissingWitness));
    assert_eq!(alloc_location(&mut cs, &loc), Err(SynthError::MissingWitness));
    let mut st = some_state(&fes(&[]));
    st[100] = None;
    assert_eq!(alloc_state(&mut cs, &st), Err(SynthError::MissingWitness));
    assert_eq!(cs.publics.len(), 0);
    assert_eq!(cs.privates.len(), 0);
}

#[test]
fn structural_mismatches_are_reported() {
    let mut cs = Builder::new();
    let short_loc = vec![Some(false); 3];
    assert_eq!(
        alloc_input_location(&mut cs, &short_loc),
        Err(SynthError::StructuralMismatch)
    );
    let short_state = vec![Some(fe_zero()); 3];
    assert_eq!(
        alloc_state(&mut cs, &short_state),
        Err(SynthError::StructuralMismatch)
    );
    // unregistered table
    assert_eq!(
        range_check(&cs, &fe_zero(), AMOUNT_RANGE_TABLE),
        Err(SynthError::StructuralMismatch)
    );
    // widths outside the machine word
    assert_eq!(
        create_range_table(&mut cs, 7, 0),
        Err(SynthError::StructuralMismatch)
    );
    assert_eq!(
        create_range_table(&mut cs, 7, 64),
        Err(SynthError::StructuralMismatch)
    );
}

#[test]
fn range_table_registry_is_idempotent() {
    let mut cs = Builder::new();
    let t1 = create_range_table(&mut cs, AMOUNT_RANGE_TABLE, 8).unwrap();
    let t2 = create_range_table(&mut cs, AMOUNT_RANGE_TABLE, 8).unwrap();
    assert_eq!(t1, t2);
    assert_eq!(cs.tables.len(), 1);
    // same name, different width: a conflict
    assert_eq!(
        create_range_table(&mut cs, AMOUNT_RANGE_TABLE, 9),
        Err(SynthError::TableConflict)
    );
    // a different name is a fresh table
    let t3 = create_range_table(&mut cs, 2, 9).unwrap();
    assert_ne!(t1, t3);
    assert_eq!(cs.tables.len(), 2);
}

#[test]
fn range_check_and_send_tokens() {
    let mut cs = Builder::new();
    create_range_table(&mut cs, AMOUNT_RANGE_TABLE, AMOUNT_LOG_LIMIT).unwrap();
    assert_eq!(range_check(&cs, &fe_from_u64(255), AMOUNT_RANGE_TABLE), Ok(()));
    assert_eq!(
        range_check(&cs, &fe_from_u64(256), AMOUNT_RANGE_TABLE),
        Err(SynthError::RangeViolation)
    );
    let (nf, nt) = send_tokens(
        &cs,
        &fe_from_u64(5),
        &fe_from_u64(7),
        &fe_from_u64(2),
        AMOUNT_RANGE_TABLE,
    )
    .unwrap();
    assert_eq!(nf, fe_from_u64(3));
    assert_eq!(nt, fe_from_u64(9));
    assert_eq!(
        send_tokens(&cs, &fe_from_u64(5), &fe_from_u64(7), &fe_from_u64(6), AMOUNT_RANGE_TABLE),
        Err(SynthError::RangeViolation)
    );
}

#[test]
fn allocation_is_recorded_in_order() {
    let mut cs = Builder::new();
    let a = fe_from_u64(11);
    let b = fe_from_u64(22);
    assert_eq!(num_alloc_input(&mut cs, &Some(a)), Ok(a));
    assert_eq!(alloc_num(&mut cs, &Some(b)), Ok(b));
    assert_eq!(alloc_input_boolean(&mut cs, Some(true)), Ok(true));
    assert_eq!(cs.publics, vec![a, fe_one()]);
    assert_eq!(cs.privates, vec![b]);
    let st = fes(&[(0, 9)]);
    let re = realloc_state(&mut cs, &st);
    assert_eq!(re, st);
    assert_eq!(cs.privates.len(), 1 + ACC_NUM);
}

#[test]
fn main_gate_self_check() {
    let mut cs = Builder::new();
    assert_eq!(inner_circuit_main_gate_part(&mut cs), Ok(()));
    assert_eq!(cs.privates.len(), 96);
    assert_eq!(cs.publics.len(), 0);
}

#[test]
fn test_render_vk_with_default_main_gate() {
    // what a rendered verification key binds to is the circuit's public
    // input layout: build the creation circuit and pin that layout down
    let pks = fes(&[]);
    let ams = fes(&[]);
    let old_commit = state_commitment(&pks, &ams);
    let new_pk = fe_one();
    let mut new_pks = pks.clone();
    new_pks[0] = new_pk;
    let new_commit = state_commitment(&new_pks, &ams);
    let circuit = CreateAccCircuit {
        state_pub_keys: some_state(&pks),
        state_amounts: some_state(&ams),
        new_location: some_location(&location(0)),
        new_pub_key: Some(new_pk),
        old_state_commit: Some(old_commit),
        new_state_commit: Some(new_commit),
        require_empty_slot: false,
    };
    let mut cs = Builder::new();
    assert_eq!(circuit.synthesize(&mut cs), Ok(()));
    assert_eq!(cs.publics.len(), 3 + ACC_DEPTH);
    assert_eq!(cs.publics[0], old_commit);
    assert_eq!(cs.publics[1], new_commit);
    assert_eq!(cs.publics[2], new_pk);
    for i in 0..ACC_DEPTH {
        assert_eq!(cs.publics[3 + i], fe_zero());
    }
}

#[test]
fn test_generate_vk_and_proof_for_dummy_circuit_with_selector_optimized_main_gate() {
    // the dummy circuit exercising the plain select-and-compare gates:
    // synthesis succeeds and allocates a fixed, reproducible shape
    let mut cs = Builder::new();
    assert_eq!(inner_circuit_main_gate_part(&mut cs), Ok(()));
    let mut cs2 = Builder::new();
    assert_eq!(inner_circuit_main_gate_part(&mut cs2), Ok(()));
    assert_eq!(cs.privates, cs2.privates);
    assert_eq!(cs.privates.len(), 96);
    assert_eq!(cs.tables.len(), 0);
}

#[test]
fn three_input_compression() {
    let a = fe_from_u64(1);
    let b = fe_from_u64(2);
    let c = fe_from_u64(3);
    let h = hash_three_numbers(&a, &b, &c);
    // deterministic, order-sensitive, not the identity on any input
    assert_eq!(h, hash_three_numbers(&a, &b, &c));
    assert_ne!(h, hash_three_numbers(&c, &b, &a));
    assert_ne!(h, a);
    assert_ne!(h, hash_two_numbers(&a, &b));
}

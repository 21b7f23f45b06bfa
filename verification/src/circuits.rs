//! The transaction circuits, at the level of witness values: account
//! creation, balance transfer, and the invariant-search meta-circuit that
//! evaluates both, selects the live one and asserts the supply-conservation
//! invariant broken.
//!
//! Policy choices this library fixes and publishes:
//! - a transfer whose two locations coincide is rejected (an asserted
//!   inequality of the locations), so a successful transfer always
//!   conserves the balance sum;
//! - the recipient's balance must be non-zero before a transfer, as a
//!   guard against crediting an uninitialised slot;
//! - account creation checks the target slot's prior public key against
//!   zero only when its `require_empty_slot` flag is set;
//! - the authentication scheme is the placeholder `H(signature) == pubKey`.

use vstd::prelude::*;
use vstd::arithmetic::power2::{pow2, lemma2_to64, lemma_pow2_strictly_increases};
use vstd::arithmetic::div_mod::{
    lemma_small_mod, lemma_sub_mod_noop, lemma_mod_twice, lemma_mod_add_multiples_vanish,
    lemma_mod_division_less_than_divisor, lemma_add_mod_noop_right,
};
use crate::field::{
    Fe, views, fe_eq, fe_is_zero, fe_add, fe_sub, fe_add_spec, fe_sub_spec, field_order,
    lemma_views_update, conditionally_select,
};
use crate::hashing::{h1, h2, hash_number, hash_two_numbers};
use crate::merkle::{
    index_of, full_root, sibling_path, root_from_path, get_num_from_boolean,
    compute_commit, hash_commit, generate_witness_path_and_commit,
    lemma_root_consistency, lemma_update_root, lemma_index_bound, lemma_index_injective,
};
use crate::builder::{
    Builder, SynthError, RangeTable, find_table, lemma_find_table_push, send_tokens,
    create_range_table,
    realloc_state, num_alloc_input, alloc_num, alloc_state, alloc_input_location,
    alloc_location, location_complete, location_bits, state_complete, state_values,
    bools_to_nats,
};
use crate::{ACC_DEPTH, ACC_NUM, AMOUNT_LOG_LIMIT};

verus! {

/// The name under which the circuits register their amount range table.
pub const AMOUNT_RANGE_TABLE: u64 = 1;

/// The sum of a sequence of values, as an unbounded natural number.
pub open spec fn nat_sum(s: Seq<nat>) -> nat
    decreases s.len(),
{
    if s.len() == 0 {
        0
    } else {
        (s[0] + nat_sum(s.drop_first())) as nat
    }
}

/// The left fold of field subtraction, as computed by `proof_bug`.
pub open spec fn sub_all(total: nat, s: Seq<nat>) -> nat
    decreases s.len(),
{
    if s.len() == 0 {
        total
    } else {
        sub_all(fe_sub_spec(total, s[0]), s.drop_first())
    }
}

/// Subtracting every element in turn lands on the difference of the total
/// and the sum, in the field.
proof fn lemma_sub_all_mod(total: nat, s: Seq<nat>)
    requires
        total < field_order(),
    ensures
        sub_all(total, s) == ((total - nat_sum(s)) % (field_order() as int)) as nat,
    decreases s.len(),
{
    let p = field_order() as int;
    if s.len() == 0 {
        lemma_small_mod(total, field_order());
    } else {
        let t1 = fe_sub_spec(total, s[0]);
        lemma_mod_division_less_than_divisor((total + field_order() - s[0]) as int, p);
        lemma_sub_all_mod(t1, s.drop_first());
        let rest = nat_sum(s.drop_first()) as int;
        lemma_sub_mod_noop((total + field_order() - s[0]) as int, rest, p);
        lemma_mod_twice(rest, p);
        lemma_sub_mod_noop((total + field_order() - s[0]) as int, rest % p, p);
        lemma_mod_add_multiples_vanish((total - s[0] - rest) as int, p);
        assert(((total + field_order() - s[0]) - rest) % p == ((total - s[0]) - rest) % p);
        assert(sub_all(total, s) == ((t1 - rest % p) % p) as nat);
        assert((t1 - rest % p) % p == (((total + field_order() - s[0]) % p) - (rest % p) % p) % p);
    }
}

/// A difference in the field is zero exactly when the operands are
/// congruent.
proof fn lemma_diff_zero(total: nat, s: nat)
    requires
        total < field_order(),
    ensures
        (((total - s) % (field_order() as int)) == 0) <==> (total == (s as int) % (
        field_order() as int)),
{
    let p = field_order() as int;
    lemma_sub_mod_noop(total as int, s as int, p);
    lemma_small_mod(total, field_order());
    lemma_mod_twice(s as int, p);
    lemma_mod_division_less_than_divisor(s as int, p);
    let d = total - ((s as int) % p);
    if d == 0 {
        assert((total - s) % p == (((total as int) % p) - ((s as int) % p)) % p);
    } else if d > 0 {
        lemma_small_mod(d as nat, field_order());
        lemma_sub_mod_noop(total as int, (s as int) % p, p);
    } else {
        lemma_mod_add_multiples_vanish(d, p);
        lemma_small_mod((d + p) as nat, field_order());
        lemma_sub_mod_noop(total as int, (s as int) % p, p);
    }
}

/// Exec equality of two bit locations.
pub fn bits_eq(a: &Vec<bool>, b: &Vec<bool>) -> (r: bool)
    ensures
        r <==> a@ == b@,
{
    if a.len() != b.len() {
        proof {
            assert(a@.len() != b@.len());
        }
        return false;
    }
    let mut i: usize = 0;
    while i < a.len()
        invariant
            a@.len() == b@.len(),
            i <= a@.len(),
            forall|k: int| 0 <= k < i ==> a@[k] == b@[k],
        decreases a@.len() - i,
    {
        if a[i] != b[i] {
            return false;
        }
        i = i + 1;
    }
    proof {
        assert(a@ =~= b@);
    }
    true
}

/// Copies a state array, replacing one slot.
fn vec_with(v: &Vec<Fe>, i: usize, x: Fe) -> (r: Vec<Fe>)
    requires
        i < v@.len(),
    ensures
        r@ == v@.update(i as int, x),
{
    let mut r: Vec<Fe> = Vec::new();
    let mut k: usize = 0;
    while k < v.len()
        invariant
            k <= v@.len(),
            r@.len() == k,
            forall|j: int| 0 <= j < k ==> r@[j] == v@[j],
        decreases v@.len() - k,
    {
        r.push(v[k]);
        k = k + 1;
    }
    r.set(i, x);
    proof {
        assert(r@ =~= v@.update(i as int, x));
    }
    r
}

/// The placeholder authentication check: the hash of the signature must
/// equal the sender's public key. Not a real signature scheme: it binds no
/// message and argues no unforgeability.
pub fn verify_sig(pub_key: &Fe, signature: &Fe) -> (r: Result<(), SynthError>)
    ensures
        r is Ok <==> h1(signature@) == pub_key@,
        r is Err ==> r == Err::<(), SynthError>(SynthError::EqualityViolation),
{
    let sig_hash = hash_number(signature);
    if fe_eq(&sig_hash, pub_key) {
        Ok(())
    } else {
        Err(SynthError::EqualityViolation)
    }
}

/// Asserts that the balances do not sum to the claimed total supply: the
/// bug-search condition. Succeeds exactly when the conservation invariant
/// is broken for the given state.
pub fn proof_bug(state_pub_keys: &Vec<Fe>, state_amounts: &Vec<Fe>, total_supply: &Fe) -> (r:
    Result<(), SynthError>)
    ensures
        match r {
            Ok(_) => state_pub_keys@.len() == ACC_NUM && state_amounts@.len() == ACC_NUM
                && nat_sum(views(state_amounts@)) % field_order() != total_supply@,
            Err(e) => if state_pub_keys@.len() != ACC_NUM || state_amounts@.len() != ACC_NUM {
                e == SynthError::StructuralMismatch
            } else {
                e == SynthError::EqualityViolation
                    && nat_sum(views(state_amounts@)) % field_order() == total_supply@
            },
        },
{
    if state_pub_keys.len() != ACC_NUM || state_amounts.len() != ACC_NUM {
        return Err(SynthError::StructuralMismatch);
    }
    let ghost av = views(state_amounts@);
    let mut sub = *total_supply;
    proof {
        use_type_invariant(*total_supply);
        assert(av.skip(0) =~= av);
    }
    let mut i: usize = 0;
    while i < state_amounts.len()
        invariant
            state_amounts@.len() == ACC_NUM,
            av == views(state_amounts@),
            i <= ACC_NUM,
            sub_all(sub@, av.skip(i as int)) == sub_all(total_supply@, av),
        decreases state_amounts@.len() - i,
    {
        proof {
            assert(av.skip(i as int)[0] == state_amounts@[i as int]@);
            assert(av.skip(i as int).drop_first() =~= av.skip(i as int + 1));
        }
        sub = fe_sub(&sub, &state_amounts[i]);
        i = i + 1;
    }
    proof {
        assert(av.skip(ACC_NUM as int).len() == 0);
        use_type_invariant(*total_supply);
        lemma_sub_all_mod(total_supply@, av);
        lemma_diff_zero(total_supply@, nat_sum(av));
        lemma_mod_division_less_than_divisor(nat_sum(av) as int, field_order() as int);
    }
    if fe_is_zero(&sub) {
        Err(SynthError::EqualityViolation)
    } else {
        Ok(())
    }
}

/// The bit width a looked-up table covers, zero when absent.
pub open spec fn table_width_of(t: Option<RangeTable>) -> nat {
    match t {
        Some(t0) => t0.width() as nat,
        None => 0,
    }
}

/// The balances after a transfer: the sender's slot debited, then the
/// recipient's slot credited from its original balance (the two locations
/// are distinct in every successful transfer).
pub open spec fn transfer_balances(ams: Seq<nat>, fi: int, ti: int, amt: nat) -> Seq<nat> {
    ams.update(fi, fe_sub_spec(ams[fi], amt)).update(ti, fe_add_spec(ams[ti], amt))
}

/// What the transfer circuit proves, as a function of the witness values:
/// the checks in the order the circuit makes them, and on success the new
/// state commitment.
pub open spec fn transfer_spec(
    pks: Seq<nat>,
    ams: Seq<nat>,
    froml: Seq<bool>,
    tol: Seq<bool>,
    old_c: nat,
    sig: nat,
    amt: nat,
    table_ok: bool,
    w: nat,
) -> Result<nat, SynthError> {
    let fi = index_of(froml) as int;
    let ti = index_of(tol) as int;
    if pks.len() != ACC_NUM || ams.len() != ACC_NUM || froml.len() != ACC_DEPTH || tol.len()
        != ACC_DEPTH {
        Err(SynthError::StructuralMismatch)
    } else if froml == tol {
        Err(SynthError::EqualityViolation)
    } else if ams[ti] == 0 {
        Err(SynthError::EqualityViolation)
    } else if h2(full_root(pks), full_root(ams)) != old_c {
        Err(SynthError::EqualityViolation)
    } else if h1(sig) != pks[fi] {
        Err(SynthError::EqualityViolation)
    } else if !table_ok {
        Err(SynthError::StructuralMismatch)
    } else if amt >= pow2(w) || fe_sub_spec(ams[fi], amt) >= pow2(w) {
        Err(SynthError::RangeViolation)
    } else {
        Ok(h2(full_root(pks), full_root(transfer_balances(ams, fi, ti, amt))))
    }
}

/// The transfer circuit: proves the old commitment opens to the witnessed
/// state, authenticates the sender, debits and credits with range checks,
/// and recomputes the new state commitment leaf by leaf through the path
/// machinery. Returns exactly what `transfer_spec` prescribes.
pub fn transaction_circuit_inner(
    cs: &Builder,
    state_pub_keys: &Vec<Fe>,
    state_amounts: &Vec<Fe>,
    from_location: &Vec<bool>,
    to_location: &Vec<bool>,
    old_state_commit: &Fe,
    signature: &Fe,
    amount: &Fe,
    range_table_name: u64,
) -> (r: Result<Fe, SynthError>)
    ensures
        ({
            let s = transfer_spec(
                views(state_pub_keys@),
                views(state_amounts@),
                from_location@,
                to_location@,
                old_state_commit@,
                signature@,
                amount@,
                find_table(cs.tables@, range_table_name).is_some(),
                table_width_of(find_table(cs.tables@, range_table_name)),
            );
            match r {
                Ok(c) => s == Ok::<nat, SynthError>(c@),
                Err(e) => s == Err::<nat, SynthError>(e),
            }
        }),
{
    if state_pub_keys.len() != ACC_NUM || state_amounts.len() != ACC_NUM
        || from_location.len() != ACC_DEPTH || to_location.len() != ACC_DEPTH {
        return Err(SynthError::StructuralMismatch);
    }
    if bits_eq(from_location, to_location) {
        return Err(SynthError::EqualityViolation);
    }
    let ghost pv = views(state_pub_keys@);
    let ghost av = views(state_amounts@);
    proof {
        assert(pv.len() == state_pub_keys@.len());
        assert(av.len() == state_amounts@.len());
        lemma2_to64();
        lemma_index_bound(from_location@);
        lemma_index_bound(to_location@);
        if index_of(from_location@) == index_of(to_location@) {
            lemma_index_injective(from_location@, to_location@);
        }
    }
    let (from_pub_keys_path, _) = generate_witness_path_and_commit(from_location, state_pub_keys);
    let (mut from_amounts_path, _) = generate_witness_path_and_commit(
        from_location,
        state_amounts,
    );
    let (to_amounts_path, _) = generate_witness_path_and_commit(to_location, state_amounts);

    let from_pub_keys_commit = compute_commit(from_location, &from_pub_keys_path);
    let from_amounts_commit = compute_commit(from_location, &from_amounts_path);
    let to_amounts_commit = compute_commit(to_location, &to_amounts_path);
    proof {
        lemma_root_consistency(from_location@, pv);
        lemma_root_consistency(from_location@, av);
        lemma_root_consistency(to_location@, av);
    }
    if !fe_eq(&to_amounts_commit, &from_amounts_commit) {
        return Err(SynthError::EqualityViolation);
    }
    if fe_is_zero(&to_amounts_path[0]) {
        return Err(SynthError::EqualityViolation);
    }
    let old_commit = hash_two_numbers(&from_pub_keys_commit, &from_amounts_commit);
    if !fe_eq(&old_commit, old_state_commit) {
        return Err(SynthError::EqualityViolation);
    }
    match verify_sig(&from_pub_keys_path[0], signature) {
        Ok(_) => {},
        Err(e) => {
            return Err(e);
        },
    }
    let sent = send_tokens(
        cs,
        &from_amounts_path[0],
        &to_amounts_path[0],
        amount,
        range_table_name,
    );
    let (from_new_amount, to_new_amount) = match sent {
        Ok(p) => p,
        Err(e) => {
            return Err(e);
        },
    };
    let ghost old_from_path = from_amounts_path@;
    from_amounts_path.set(0, from_new_amount);
    proof {
        assert(views(from_amounts_path@).drop_first()
            =~= views(old_from_path).drop_first());
        lemma_update_root(from_location@, av, from_new_amount@);
    }
    let middle_amounts_commit = compute_commit(from_location, &from_amounts_path);

    let idx = get_num_from_boolean(from_location);
    let middle_amounts = vec_with(state_amounts, idx, from_new_amount);
    proof {
        lemma_views_update(state_amounts@, idx as int, from_new_amount);
    }
    let (mut to_amounts_middle_path, _) = generate_witness_path_and_commit(
        to_location,
        &middle_amounts,
    );
    let to_amounts_middle_commit = compute_commit(to_location, &to_amounts_middle_path);
    proof {
        lemma_root_consistency(to_location@, views(middle_amounts@));
    }
    if !fe_eq(&to_amounts_middle_commit, &middle_amounts_commit) {
        return Err(SynthError::EqualityViolation);
    }
    let ghost old_to_path = to_amounts_middle_path@;
    to_amounts_middle_path.set(0, to_new_amount);
    proof {
        assert(views(to_amounts_middle_path@).drop_first()
            =~= views(old_to_path).drop_first());
        lemma_update_root(to_location@, views(middle_amounts@), to_new_amount@);
    }
    let to_amounts_final_commit = compute_commit(to_location, &to_amounts_middle_path);
    let new_commit = hash_two_numbers(&from_pub_keys_commit, &to_amounts_final_commit);
    proof {
        assert(views(middle_amounts@).update(index_of(to_location@) as int, to_new_amount@)
            =~= transfer_balances(
            av,
            index_of(from_location@) as int,
            index_of(to_location@) as int,
            amount@,
        ));
    }
    Ok(new_commit)
}

/// What the account-creation circuit proves: the old commitment opens to
/// the witnessed state; optionally the target slot is empty; on success
/// the commitment with the new public key in place.
pub open spec fn create_acc_spec(
    pks: Seq<nat>,
    ams: Seq<nat>,
    loc: Seq<bool>,
    old_c: nat,
    new_pk: nat,
    require_empty: bool,
) -> Result<nat, SynthError> {
    let i = index_of(loc) as int;
    if pks.len() != ACC_NUM || ams.len() != ACC_NUM || loc.len() != ACC_DEPTH {
        Err(SynthError::StructuralMismatch)
    } else if h2(full_root(pks), full_root(ams)) != old_c {
        Err(SynthError::EqualityViolation)
    } else if require_empty && pks[i] != 0 {
        Err(SynthError::EqualityViolation)
    } else {
        Ok(h2(full_root(pks.update(i, new_pk)), full_root(ams)))
    }
}

/// The account-creation circuit: proves the old commitment, replaces the
/// public-key leaf at the location (balances untouched), and returns the
/// recombined new commitment, as `create_acc_spec` prescribes.
pub fn create_acc_circuit_inner(
    state_pub_keys: &Vec<Fe>,
    state_amounts: &Vec<Fe>,
    new_location: &Vec<bool>,
    old_state_commit: &Fe,
    new_pub_key: &Fe,
    require_empty_slot: bool,
) -> (r: Result<Fe, SynthError>)
    ensures
        ({
            let s = create_acc_spec(
                views(state_pub_keys@),
                views(state_amounts@),
                new_location@,
                old_state_commit@,
                new_pub_key@,
                require_empty_slot,
            );
            match r {
                Ok(c) => s == Ok::<nat, SynthError>(c@),
                Err(e) => s == Err::<nat, SynthError>(e),
            }
        }),
{
    if state_pub_keys.len() != ACC_NUM || state_amounts.len() != ACC_NUM
        || new_location.len() != ACC_DEPTH {
        return Err(SynthError::StructuralMismatch);
    }
    let ghost pv = views(state_pub_keys@);
    proof {
        lemma2_to64();
        lemma_index_bound(new_location@);
    }
    let (mut old_pub_keys_path, _) = generate_witness_path_and_commit(
        new_location,
        state_pub_keys,
    );
    let (_amounts_path, amounts_commit) = generate_witness_path_and_commit(
        new_location,
        state_amounts,
    );
    let old_pub_keys_commit = compute_commit(new_location, &old_pub_keys_path);
    proof {
        lemma_root_consistency(new_location@, pv);
    }
    let old_commit = hash_two_numbers(&old_pub_keys_commit, &amounts_commit);
    if !fe_eq(&old_commit, old_state_commit) {
        return Err(SynthError::EqualityViolation);
    }
    if require_empty_slot {
        if !fe_is_zero(&old_pub_keys_path[0]) {
            return Err(SynthError::EqualityViolation);
        }
    }
    let ghost old_path = old_pub_keys_path@;
    old_pub_keys_path.set(0, *new_pub_key);
    proof {
        assert(views(old_pub_keys_path@).drop_first() =~= views(old_path).drop_first());
        lemma_update_root(new_location@, pv, new_pub_key@);
    }
    let new_pub_keys_commit = compute_commit(new_location, &old_pub_keys_path);
    Ok(hash_two_numbers(&new_pub_keys_commit, &amounts_commit))
}

/// The post-transition state, slot mutations applied directly to the
/// witnessed arrays: a creation writes the new public key; a transfer
/// debits the first slot, then credits the second from the debited array.
pub open spec fn recovered_state(
    pks: Seq<nat>,
    ams: Seq<nat>,
    tx_type: nat,
    p1: nat,
    p2: nat,
    i1: int,
    i2: int,
) -> (Seq<nat>, Seq<nat>) {
    if tx_type == 0 {
        (pks.update(i1, p1), ams)
    } else {
        let debited = ams.update(i1, fe_sub_spec(ams[i1], p2));
        (pks, debited.update(i2, fe_add_spec(debited[i2], p2)))
    }
}

/// What state recovery proves: the reconstructed arrays hash back to the
/// selected commitment.
pub open spec fn recover_spec(
    pks: Seq<nat>,
    ams: Seq<nat>,
    tx_type: nat,
    p1: nat,
    p2: nat,
    l1: Seq<bool>,
    l2: Seq<bool>,
    new_c: nat,
) -> Result<(Seq<nat>, Seq<nat>), SynthError> {
    if pks.len() != ACC_NUM || ams.len() != ACC_NUM || l1.len() != ACC_DEPTH || l2.len()
        != ACC_DEPTH {
        Err(SynthError::StructuralMismatch)
    } else {
        let st = recovered_state(pks, ams, tx_type, p1, p2, index_of(l1) as int, index_of(l2) as int);
        if h2(full_root(st.0), full_root(st.1)) != new_c {
            Err(SynthError::EqualityViolation)
        } else {
            Ok(st)
        }
    }
}

/// Reconstructs the full post-transition account arrays by applying the
/// transaction's slot mutation directly, and confirms that hashing them
/// reproduces the selected commitment.
pub fn recover_state(
    cs: &mut Builder,
    new_commit: &Fe,
    state_pub_keys: &Vec<Fe>,
    state_amounts: &Vec<Fe>,
    tx_type: &Fe,
    first_parameter: &Fe,
    second_parameter: &Fe,
    first_location: &Vec<bool>,
    second_location: &Vec<bool>,
) -> (r: Result<(Vec<Fe>, Vec<Fe>), SynthError>)
    ensures
        final(cs).publics@ == old(cs).publics@,
        final(cs).tables@ == old(cs).tables@,
        ({
            let s = recover_spec(
                views(state_pub_keys@),
                views(state_amounts@),
                tx_type@,
                first_parameter@,
                second_parameter@,
                first_location@,
                second_location@,
                new_commit@,
            );
            match r {
                Ok((npks, nams)) => npks@.len() == ACC_NUM && nams@.len() == ACC_NUM && s
                    == Ok::<(Seq<nat>, Seq<nat>), SynthError>((views(npks@), views(nams@))),
                Err(e) => s == Err::<(Seq<nat>, Seq<nat>), SynthError>(e),
            }
        }),
{
    if state_pub_keys.len() != ACC_NUM || state_amounts.len() != ACC_NUM
        || first_location.len() != ACC_DEPTH || second_location.len() != ACC_DEPTH {
        return Err(SynthError::StructuralMismatch);
    }
    let pks2 = realloc_state(cs, state_pub_keys);
    let ams2 = realloc_state(cs, state_amounts);
    proof {
        lemma2_to64();
        lemma_index_bound(first_location@);
        lemma_index_bound(second_location@);
    }
    let idx1 = get_num_from_boolean(first_location);
    let idx2 = get_num_from_boolean(second_location);
    let (new_pks, new_ams) = if fe_is_zero(tx_type) {
        let npks = vec_with(&pks2, idx1, *first_parameter);
        proof {
            lemma_views_update(pks2@, idx1 as int, *first_parameter);
        }
        (npks, ams2)
    } else {
        let deb = fe_sub(&ams2[idx1], second_parameter);
        let debited = vec_with(&ams2, idx1, deb);
        proof {
            lemma_views_update(ams2@, idx1 as int, deb);
        }
        let cred = fe_add(&debited[idx2], second_parameter);
        let credited = vec_with(&debited, idx2, cred);
        proof {
            lemma_views_update(debited@, idx2 as int, cred);
        }
        (pks2, credited)
    };
    let pub_keys_commit = hash_commit(&new_pks);
    let amounts_commit = hash_commit(&new_ams);
    let final_commit = hash_two_numbers(&pub_keys_commit, &amounts_commit);
    if !fe_eq(&final_commit, new_commit) {
        return Err(SynthError::EqualityViolation);
    }
    Ok((new_pks, new_ams))
}

/// Replacing one value changes the sum by the difference of new and old.
proof fn lemma_sum_update(s: Seq<nat>, i: int, v: nat)
    requires
        0 <= i < s.len(),
    ensures
        nat_sum(s.update(i, v)) == nat_sum(s) - s[i] + v,
    decreases s.len(),
{
    if i == 0 {
        assert(s.update(0, v).drop_first() =~= s.drop_first());
    } else {
        assert(s.update(i, v).drop_first() =~= s.drop_first().update(i - 1, v));
        lemma_sum_update(s.drop_first(), i - 1, v);
        assert(s.update(i, v)[0] == s[0]);
    }
}

/// Transfer conservation in the field: for every transfer that passes the
/// range checks, the sum of all balances is unchanged modulo the field
/// order, whatever the recipient's balance.
pub proof fn lemma_transfer_conservation_mod(
    ams: Seq<nat>,
    froml: Seq<bool>,
    tol: Seq<bool>,
    amt: nat,
    w: nat,
)
    requires
        ams.len() == ACC_NUM,
        froml.len() == ACC_DEPTH,
        tol.len() == ACC_DEPTH,
        froml != tol,
        w < 64,
        amt < pow2(w),
        fe_sub_spec(ams[index_of(froml) as int], amt) < pow2(w),
        forall|i: int| 0 <= i < ams.len() ==> ams[i] < field_order(),
    ensures
        nat_sum(transfer_balances(ams, index_of(froml) as int, index_of(tol) as int, amt))
            % field_order() == nat_sum(ams) % field_order(),
{
    let fi = index_of(froml) as int;
    let ti = index_of(tol) as int;
    lemma2_to64();
    lemma_index_bound(froml);
    lemma_index_bound(tol);
    if fi == ti {
        lemma_index_injective(froml, tol);
    }
    lemma_pow2_strictly_increases(w, 64);
    let p = field_order() as int;
    let nf = fe_sub_spec(ams[fi], amt);
    if ams[fi] < amt {
        lemma_small_mod((ams[fi] + field_order() - amt) as nat, field_order());
        assert(false);
    }
    lemma_mod_add_multiples_vanish((ams[fi] - amt) as int, p);
    lemma_small_mod((ams[fi] - amt) as nat, field_order());
    assert(nf == ams[fi] - amt);
    let nt = fe_add_spec(ams[ti], amt);
    let mid = ams.update(fi, nf);
    lemma_sum_update(ams, fi, nf);
    lemma_sum_update(mid, ti, nt);
    assert(mid[ti] == ams[ti]);
    let x = nat_sum(ams) - amt - ams[ti];
    lemma_add_mod_noop_right(x, (ams[ti] + amt) as int, p);
    assert(nat_sum(transfer_balances(ams, fi, ti, amt)) == x + nt);
    assert((x + (ams[ti] + amt)) % p == (nat_sum(ams) as int) % p);
}

/// Transfer conservation: a transfer that passes the range checks moves
/// exactly `amt` from the sender's slot to the recipient's, touches no
/// other slot, and leaves the sum of all balances unchanged, provided the
/// recipient's balance does not wrap around the field order.
pub proof fn lemma_transfer_conservation(
    ams: Seq<nat>,
    froml: Seq<bool>,
    tol: Seq<bool>,
    amt: nat,
    w: nat,
)
    requires
        ams.len() == ACC_NUM,
        froml.len() == ACC_DEPTH,
        tol.len() == ACC_DEPTH,
        froml != tol,
        w < 64,
        amt < pow2(w),
        fe_sub_spec(ams[index_of(froml) as int], amt) < pow2(w),
        forall|i: int| 0 <= i < ams.len() ==> ams[i] < field_order(),
        ams[index_of(tol) as int] + amt < field_order(),
    ensures
        ({
            let fi = index_of(froml) as int;
            let ti = index_of(tol) as int;
            let after = transfer_balances(ams, fi, ti, amt);
            &&& nat_sum(after) == nat_sum(ams)
            &&& after[ti] == ams[ti] + amt
            &&& after[fi] == ams[fi] - amt
            &&& ams[fi] >= amt
            &&& forall|i: int|
                0 <= i < ams.len() && i != fi && i != ti ==> after[i] == ams[i]
        }),
{
    let fi = index_of(froml) as int;
    let ti = index_of(tol) as int;
    lemma2_to64();
    lemma_index_bound(froml);
    lemma_index_bound(tol);
    if fi == ti {
        lemma_index_injective(froml, tol);
    }
    lemma_pow2_strictly_increases(w, 64);
    let p = field_order() as int;
    let nf = fe_sub_spec(ams[fi], amt);
    if ams[fi] < amt {
        lemma_small_mod((ams[fi] + field_order() - amt) as nat, field_order());
        assert(nf == ams[fi] + field_order() - amt);
        assert(false);
    }
    lemma_mod_add_multiples_vanish((ams[fi] - amt) as int, p);
    lemma_small_mod((ams[fi] - amt) as nat, field_order());
    assert(nf == ams[fi] - amt);
    let nt = fe_add_spec(ams[ti], amt);
    lemma_small_mod((ams[ti] + amt) as nat, field_order());
    assert(nt == ams[ti] + amt);
    let mid = ams.update(fi, nf);
    lemma_sum_update(ams, fi, nf);
    lemma_sum_update(mid, ti, nt);
    assert(mid[ti] == ams[ti]);
}

/// Registers (or fetches) the amount range table; a conflict arises only
/// when the name is already taken by a table of another width.
pub open spec fn table_setup_err(ts: Seq<RangeTable>) -> Option<SynthError> {
    match find_table(ts, AMOUNT_RANGE_TABLE) {
        Some(t) => if t.width() != AMOUNT_LOG_LIMIT {
            Some(SynthError::TableConflict)
        } else {
            None
        },
        None => None,
    }
}

/// The transfer circuit as handed to provers: witnessed state, public
/// transaction data and the two commitments.
pub struct ApplyTxCircuit {
    pub state_pub_keys: Vec<Option<Fe>>,
    pub state_amounts: Vec<Option<Fe>>,
    pub from_location: Vec<Option<bool>>,
    pub to_location: Vec<Option<bool>>,
    pub amount: Option<Fe>,
    pub signature: Option<Fe>,
    pub old_state_commit: Option<Fe>,
    pub new_state_commit: Option<Fe>,
}

/// The first failure of the transfer circuit's allocation phase, in
/// allocation order.
pub open spec fn apply_tx_alloc_err(c: ApplyTxCircuit) -> Option<SynthError> {
    if c.old_state_commit.is_none() {
        Some(SynthError::MissingWitness)
    } else if c.new_state_commit.is_none() {
        Some(SynthError::MissingWitness)
    } else if c.amount.is_none() {
        Some(SynthError::MissingWitness)
    } else if c.signature.is_none() {
        Some(SynthError::MissingWitness)
    } else if c.from_location.len() != ACC_DEPTH {
        Some(SynthError::StructuralMismatch)
    } else if !location_complete(c.from_location@) {
        Some(SynthError::MissingWitness)
    } else if c.to_location.len() != ACC_DEPTH {
        Some(SynthError::StructuralMismatch)
    } else if !location_complete(c.to_location@) {
        Some(SynthError::MissingWitness)
    } else if c.state_pub_keys.len() != ACC_NUM {
        Some(SynthError::StructuralMismatch)
    } else if !state_complete(c.state_pub_keys@) {
        Some(SynthError::MissingWitness)
    } else if c.state_amounts.len() != ACC_NUM {
        Some(SynthError::StructuralMismatch)
    } else if !state_complete(c.state_amounts@) {
        Some(SynthError::MissingWitness)
    } else {
        None
    }
}

impl ApplyTxCircuit {
    /// Builds the transfer circuit: allocates the public inputs in their
    /// binding order (old commitment, new commitment, amount, then the two
    /// locations bit by bit), the witnesses, and the range table; runs the
    /// transfer; and enforces that the recomputed commitment equals the
    /// stated new one.
    pub fn synthesize(&self, cs: &mut Builder) -> (r: Result<(), SynthError>)
        ensures
            ({
                let ae = apply_tx_alloc_err(*self);
                let s = transfer_spec(
                    views(state_values(self.state_pub_keys@)),
                    views(state_values(self.state_amounts@)),
                    location_bits(self.from_location@),
                    location_bits(self.to_location@),
                    self.old_state_commit.unwrap()@,
                    self.signature.unwrap()@,
                    self.amount.unwrap()@,
                    true,
                    AMOUNT_LOG_LIMIT as nat,
                );
                match r {
                    Ok(_) => ae.is_none() && table_setup_err(old(cs).tables@).is_none()
                        && s == Ok::<nat, SynthError>(self.new_state_commit.unwrap()@)
                        && views(final(cs).publics@) == views(old(cs).publics@) + seq![
                        self.old_state_commit.unwrap()@,
                        self.new_state_commit.unwrap()@,
                        self.amount.unwrap()@,
                    ] + bools_to_nats(location_bits(self.from_location@)) + bools_to_nats(
                        location_bits(self.to_location@),
                    ),
                    Err(e) => match ae {
                        Some(e0) => e == e0,
                        None => match table_setup_err(old(cs).tables@) {
                            Some(e1) => e == e1,
                            None => match s {
                                Err(e2) => e == e2,
                                Ok(c) => e == SynthError::EqualityViolation && c
                                    != self.new_state_commit.unwrap()@,
                            },
                        },
                    },
                }
            }),
    {
        let old_state_commit = match num_alloc_input(cs, &self.old_state_commit) {
            Ok(v) => v,
            Err(e) => {
                return Err(e);
            },
        };
        let new_state_commit = match num_alloc_input(cs, &self.new_state_commit) {
            Ok(v) => v,
            Err(e) => {
                return Err(e);
            },
        };
        let amount = match num_alloc_input(cs, &self.amount) {
            Ok(v) => v,
            Err(e) => {
                return Err(e);
            },
        };
        let signature = match alloc_num(cs, &self.signature) {
            Ok(v) => v,
            Err(e) => {
                return Err(e);
            },
        };
        let from_location = match alloc_input_location(cs, &self.from_location) {
            Ok(v) => v,
            Err(e) => {
                return Err(e);
            },
        };
        let to_location = match alloc_input_location(cs, &self.to_location) {
            Ok(v) => v,
            Err(e) => {
                return Err(e);
            },
        };
        let state_pub_keys = match alloc_state(cs, &self.state_pub_keys) {
            Ok(v) => v,
            Err(e) => {
                return Err(e);
            },
        };
        let state_amounts = match alloc_state(cs, &self.state_amounts) {
            Ok(v) => v,
            Err(e) => {
                return Err(e);
            },
        };
        let table = match create_range_table(cs, AMOUNT_RANGE_TABLE, AMOUNT_LOG_LIMIT) {
            Ok(t) => t,
            Err(e) => {
                return Err(e);
            },
        };
        proof {
            if find_table(old(cs).tables@, AMOUNT_RANGE_TABLE).is_none() {
                lemma_find_table_push(old(cs).tables@, table);
            }
        }
        let new_commit = match transaction_circuit_inner(
            cs,
            &state_pub_keys,
            &state_amounts,
            &from_location,
            &to_location,
            &old_state_commit,
            &signature,
            &amount,
            AMOUNT_RANGE_TABLE,
        ) {
            Ok(c) => c,
            Err(e) => {
                return Err(e);
            },
        };
        if !fe_eq(&new_commit, &new_state_commit) {
            return Err(SynthError::EqualityViolation);
        }
        proof {
            crate::field::lemma_views_push(old(cs).publics@, old_state_commit);
            crate::field::lemma_views_push(
                old(cs).publics@.push(old_state_commit),
                new_state_commit,
            );
            crate::field::lemma_views_push(
                old(cs).publics@.push(old_state_commit).push(new_state_commit),
                amount,
            );
            assert(views(cs.publics@) =~= views(old(cs).publics@) + seq![
                self.old_state_commit.unwrap()@,
                self.new_state_commit.unwrap()@,
                self.amount.unwrap()@,
            ] + bools_to_nats(location_bits(self.from_location@)) + bools_to_nats(
                location_bits(self.to_location@),
            ));
        }
        Ok(())
    }
}

/// The account-creation circuit as handed to provers.
pub struct CreateAccCircuit {
    pub state_pub_keys: Vec<Option<Fe>>,
    pub state_amounts: Vec<Option<Fe>>,
    pub new_location: Vec<Option<bool>>,
    pub new_pub_key: Option<Fe>,
    pub old_state_commit: Option<Fe>,
    pub new_state_commit: Option<Fe>,
    /// Whether the target slot's prior public key must be the zero
    /// element: the published slot-emptiness policy, configurable here.
    pub require_empty_slot: bool,
}

/// The first failure of the creation circuit's allocation phase, in
/// allocation order.
pub open spec fn create_acc_alloc_err(c: CreateAccCircuit) -> Option<SynthError> {
    if c.old_state_commit.is_none() {
        Some(SynthError::MissingWitness)
    } else if c.new_state_commit.is_none() {
        Some(SynthError::MissingWitness)
    } else if c.new_pub_key.is_none() {
        Some(SynthError::MissingWitness)
    } else if c.new_location.len() != ACC_DEPTH {
        Some(SynthError::StructuralMismatch)
    } else if !location_complete(c.new_location@) {
        Some(SynthError::MissingWitness)
    } else if c.state_pub_keys.len() != ACC_NUM {
        Some(SynthError::StructuralMismatch)
    } else if !state_complete(c.state_pub_keys@) {
        Some(SynthError::MissingWitness)
    } else if c.state_amounts.len() != ACC_NUM {
        Some(SynthError::StructuralMismatch)
    } else if !state_complete(c.state_amounts@) {
        Some(SynthError::MissingWitness)
    } else {
        None
    }
}

impl CreateAccCircuit {
    /// Builds the creation circuit: allocates the public inputs in their
    /// binding order (old commitment, new commitment, new public key, then
    /// the location bit by bit) and the witnessed state, proves the
    /// creation, and enforces that the recomputed commitment equals the
    /// stated new one.
    pub fn synthesize(&self, cs: &mut Builder) -> (r: Result<(), SynthError>)
        ensures
            ({
                let ae = create_acc_alloc_err(*self);
                let s = create_acc_spec(
                    views(state_values(self.state_pub_keys@)),
                    views(state_values(self.state_amounts@)),
                    location_bits(self.new_location@),
                    self.old_state_commit.unwrap()@,
                    self.new_pub_key.unwrap()@,
                    self.require_empty_slot,
                );
                match r {
                    Ok(_) => ae.is_none()
                        && s == Ok::<nat, SynthError>(self.new_state_commit.unwrap()@)
                        && views(final(cs).publics@) == views(old(cs).publics@) + seq![
                        self.old_state_commit.unwrap()@,
                        self.new_state_commit.unwrap()@,
                        self.new_pub_key.unwrap()@,
                    ] + bools_to_nats(location_bits(self.new_location@)),
                    Err(e) => match ae {
                        Some(e0) => e == e0,
                        None => match s {
                            Err(e2) => e == e2,
                            Ok(c) => e == SynthError::EqualityViolation && c
                                != self.new_state_commit.unwrap()@,
                        },
                    },
                }
            }),
    {
        let old_state_commit = match num_alloc_input(cs, &self.old_state_commit) {
            Ok(v) => v,
            Err(e) => {
                return Err(e);
            },
        };
        let new_state_commit = match num_alloc_input(cs, &self.new_state_commit) {
            Ok(v) => v,
            Err(e) => {
                return Err(e);
            },
        };
        let new_pub_key = match num_alloc_input(cs, &self.new_pub_key) {
            Ok(v) => v,
            Err(e) => {
                return Err(e);
            },
        };
        let new_location = match alloc_input_location(cs, &self.new_location) {
            Ok(v) => v,
            Err(e) => {
                return Err(e);
            },
        };
        let state_pub_keys = match alloc_state(cs, &self.state_pub_keys) {
            Ok(v) => v,
            Err(e) => {
                return Err(e);
            },
        };
        let state_amounts = match alloc_state(cs, &self.state_amounts) {
            Ok(v) => v,
            Err(e) => {
                return Err(e);
            },
        };
        let new_commit = match create_acc_circuit_inner(
            &state_pub_keys,
            &state_amounts,
            &new_location,
            &old_state_commit,
            &new_pub_key,
            self.require_empty_slot,
        ) {
            Ok(c) => c,
            Err(e) => {
                return Err(e);
            },
        };
        if !fe_eq(&new_commit, &new_state_commit) {
            return Err(SynthError::EqualityViolation);
        }
        proof {
            crate::field::lemma_views_push(old(cs).publics@, old_state_commit);
            crate::field::lemma_views_push(
                old(cs).publics@.push(old_state_commit),
                new_state_commit,
            );
            crate::field::lemma_views_push(
                old(cs).publics@.push(old_state_commit).push(new_state_commit),
                new_pub_key,
            );
            assert(views(cs.publics@) =~= views(old(cs).publics@) + seq![
                self.old_state_commit.unwrap()@,
                self.new_state_commit.unwrap()@,
                self.new_pub_key.unwrap()@,
            ] + bools_to_nats(location_bits(self.new_location@)));
        }
        Ok(())
    }
}

/// The invariant-search meta-circuit as handed to provers. Both
/// transaction kinds are evaluated on the same witnessed state; the type
/// flag selects the live outcome. Redundant encoded copies of the
/// transaction fields, which a deployment may carry for cross-checking,
/// are not modelled here.
pub struct HackProofCircuit {
    pub state_commit: Option<Fe>,
    pub state_pub_keys: Vec<Option<Fe>>,
    pub state_amounts: Vec<Option<Fe>>,
    pub total_supply: Option<Fe>,
    pub tx_type: Option<Fe>,
    pub first_location: Vec<Option<bool>>,
    pub second_location: Vec<Option<bool>>,
    pub first_parameter: Option<Fe>,
    pub second_parameter: Option<Fe>,
}

/// The first failure of the meta-circuit's allocation phase, in
/// allocation order.
pub open spec fn hack_proof_alloc_err(c: HackProofCircuit) -> Option<SynthError> {
    if c.state_commit.is_none() {
        Some(SynthError::MissingWitness)
    } else if c.state_pub_keys.len() != ACC_NUM {
        Some(SynthError::StructuralMismatch)
    } else if !state_complete(c.state_pub_keys@) {
        Some(SynthError::MissingWitness)
    } else if c.state_amounts.len() != ACC_NUM {
        Some(SynthError::StructuralMismatch)
    } else if !state_complete(c.state_amounts@) {
        Some(SynthError::MissingWitness)
    } else if c.total_supply.is_none() {
        Some(SynthError::MissingWitness)
    } else if c.tx_type.is_none() {
        Some(SynthError::MissingWitness)
    } else if c.first_parameter.is_none() {
        Some(SynthError::MissingWitness)
    } else if c.second_parameter.is_none() {
        Some(SynthError::MissingWitness)
    } else if c.first_location.len() != ACC_DEPTH {
        Some(SynthError::StructuralMismatch)
    } else if !location_complete(c.first_location@) {
        Some(SynthError::MissingWitness)
    } else if c.second_location.len() != ACC_DEPTH {
        Some(SynthError::StructuralMismatch)
    } else if !location_complete(c.second_location@) {
        Some(SynthError::MissingWitness)
    } else {
        None
    }
}

/// What the meta-circuit proves once everything is allocated: both
/// transaction outcomes, data-independent selection by the type flag,
/// state reconstruction against the selected commitment, and the
/// assertion that the recovered balances do not sum to the claimed total
/// supply. Satisfiable only by a witness that breaks conservation.
pub open spec fn hack_proof_spec(
    commit: nat,
    pks: Seq<nat>,
    ams: Seq<nat>,
    total: nat,
    tx_type: nat,
    l1: Seq<bool>,
    l2: Seq<bool>,
    p1: nat,
    p2: nat,
) -> Result<(), SynthError> {
    match create_acc_spec(pks, ams, l1, commit, p1, false) {
        Err(e) => Err(e),
        Ok(cc) => match transfer_spec(
            pks,
            ams,
            l1,
            l2,
            commit,
            p1,
            p2,
            true,
            AMOUNT_LOG_LIMIT as nat,
        ) {
            Err(e) => Err(e),
            Ok(tc) => {
                let selected = if tx_type == 0 {
                    cc
                } else {
                    tc
                };
                match recover_spec(pks, ams, tx_type, p1, p2, l1, l2, selected) {
                    Err(e) => Err(e),
                    Ok(st) => if nat_sum(st.1) % field_order() == total {
                        Err(SynthError::EqualityViolation)
                    } else {
                        Ok(())
                    },
                }
            },
        },
    }
}

impl HackProofCircuit {
    /// Builds the meta-circuit: computes both transaction outcomes
    /// unconditionally, selects by the type flag, reconstructs the
    /// post-transition state, and asserts the conservation invariant
    /// broken.
    #[verifier::rlimit(50)]
    pub fn synthesize(&self, cs: &mut Builder) -> (r: Result<(), SynthError>)
        ensures
            ({
                let ae = hack_proof_alloc_err(*self);
                let s = hack_proof_spec(
                    self.state_commit.unwrap()@,
                    views(state_values(self.state_pub_keys@)),
                    views(state_values(self.state_amounts@)),
                    self.total_supply.unwrap()@,
                    self.tx_type.unwrap()@,
                    location_bits(self.first_location@),
                    location_bits(self.second_location@),
                    self.first_parameter.unwrap()@,
                    self.second_parameter.unwrap()@,
                );
                match r {
                    Ok(_) => ae.is_none() && table_setup_err(old(cs).tables@).is_none()
                        && s == Ok::<(), SynthError>(())
                        && views(final(cs).publics@) == views(old(cs).publics@) + seq![
                        self.state_commit.unwrap()@,
                        self.total_supply.unwrap()@,
                    ],
                    Err(e) => match ae {
                        Some(e0) => e == e0,
                        None => match table_setup_err(old(cs).tables@) {
                            Some(e1) => e == e1,
                            None => s == Err::<(), SynthError>(e),
                        },
                    },
                }
            }),
    {
        let state_commit = match num_alloc_input(cs, &self.state_commit) {
            Ok(v) => v,
            Err(e) => {
                return Err(e);
            },
        };
        let state_pub_keys = match alloc_state(cs, &self.state_pub_keys) {
            Ok(v) => v,
            Err(e) => {
                return Err(e);
            },
        };
        let state_amounts = match alloc_state(cs, &self.state_amounts) {
            Ok(v) => v,
            Err(e) => {
                return Err(e);
            },
        };
        let total_supply = match num_alloc_input(cs, &self.total_supply) {
            Ok(v) => v,
            Err(e) => {
                return Err(e);
            },
        };
        let tx_type = match alloc_num(cs, &self.tx_type) {
            Ok(v) => v,
            Err(e) => {
                return Err(e);
            },
        };
        let first_parameter = match alloc_num(cs, &self.first_parameter) {
            Ok(v) => v,
            Err(e) => {
                return Err(e);
            },
        };
        let second_parameter = match alloc_num(cs, &self.second_parameter) {
            Ok(v) => v,
            Err(e) => {
                return Err(e);
            },
        };
        let first_location = match alloc_location(cs, &self.first_location) {
            Ok(v) => v,
            Err(e) => {
                return Err(e);
            },
        };
        let second_location = match alloc_location(cs, &self.second_location) {
            Ok(v) => v,
            Err(e) => {
                return Err(e);
            },
        };
        let table = match create_range_table(cs, AMOUNT_RANGE_TABLE, AMOUNT_LOG_LIMIT) {
            Ok(t) => t,
            Err(e) => {
                return Err(e);
            },
        };
        proof {
            if find_table(old(cs).tables@, AMOUNT_RANGE_TABLE).is_none() {
                lemma_find_table_push(old(cs).tables@, table);
            }
            assert(find_table(cs.tables@, AMOUNT_RANGE_TABLE) == Some(table));
        }
        let acc_create_commit = match create_acc_circuit_inner(
            &state_pub_keys,
            &state_amounts,
            &first_location,
            &state_commit,
            &first_parameter,
            false,
        ) {
            Ok(c) => c,
            Err(e) => {
                return Err(e);
            },
        };
        let transaction_commit = match transaction_circuit_inner(
            cs,
            &state_pub_keys,
            &state_amounts,
            &first_location,
            &second_location,
            &state_commit,
            &first_parameter,
            &second_parameter,
            AMOUNT_RANGE_TABLE,
        ) {
            Ok(c) => c,
            Err(e) => {
                return Err(e);
            },
        };
        let first_type = fe_is_zero(&tx_type);
        let new_commit = conditionally_select(first_type, &acc_create_commit, &transaction_commit);
        let (new_state_pub_keys, new_state_amounts) = match recover_state(
            cs,
            &new_commit,
            &state_pub_keys,
            &state_amounts,
            &tx_type,
            &first_parameter,
            &second_parameter,
            &first_location,
            &second_location,
        ) {
            Ok(p) => p,
            Err(e) => {
                return Err(e);
            },
        };
        proof {
            assert(views(state_values(self.state_pub_keys@)).len() == ACC_NUM);
            assert(views(state_values(self.state_amounts@)).len() == ACC_NUM);
            assert(views(new_state_pub_keys@).len() == new_state_pub_keys@.len());
            assert(views(new_state_amounts@).len() == new_state_amounts@.len());
            assert(new_state_pub_keys@.len() == ACC_NUM);
            assert(new_state_amounts@.len() == ACC_NUM);
        }
        match proof_bug(&new_state_pub_keys, &new_state_amounts, &total_supply) {
            Ok(_) => {},
            Err(e) => {
                return Err(e);
            },
        }
        proof {
            crate::field::lemma_views_push(old(cs).publics@, state_commit);
            crate::field::lemma_views_push(old(cs).publics@.push(state_commit), total_supply);
            assert(views(cs.publics@) =~= views(old(cs).publics@) + seq![
                self.state_commit.unwrap()@,
                self.total_supply.unwrap()@,
            ]);
        }
        Ok(())
    }
}

} // verus!

//! The constraint-building context, reduced to what the circuits' witness
//! semantics needs: the ordered list of public inputs (verifiers bind
//! public values by position, so the allocation sequence is part of each
//! circuit's contract), the ordered list of private allocations, and the
//! registry of named range tables.
//!
//! The registry is an explicit object rather than ambient state: a table is
//! registered at most once per name (register-or-fetch), and reusing a name
//! with a different width is a fatal configuration error.

use vstd::prelude::*;
use vstd::arithmetic::power2::pow2;
use crate::field::{Fe, views, fe_one, fe_zero, fe_eq, fe_add, fe_sub, conditionally_select,
    fe_fits_bits, fe_add_spec, fe_sub_spec};
use crate::{ACC_DEPTH, ACC_NUM};

verus! {

/// The ways a synthesis can fail. A failure aborts the whole synthesis;
/// there is no partial result.
#[derive(Clone, Copy, Debug, PartialEq, Eq, Structural)]
pub enum SynthError {
    /// A private or public value required for proving was not supplied.
    MissingWitness,
    /// A range table name was reused with an incompatible width.
    TableConflict,
    /// A value fell outside the registered range table.
    RangeViolation,
    /// An asserted equality (or non-zero assertion) does not hold for the
    /// given witness.
    EqualityViolation,
    /// Array lengths, location bit widths or table widths inconsistent
    /// with the configured dimensions.
    StructuralMismatch,
}

/// A registered range table: membership means "representable in
/// `log_size` bits".
#[derive(Clone, Copy, Debug, PartialEq, Eq, Structural)]
pub struct RangeTable {
    name: u64,
    log_size: usize,
}

impl RangeTable {
    #[verifier::type_invariant]
    spec fn wf(self) -> bool {
        0 < self.log_size < 64
    }

    /// The name under which the table is registered.
    pub closed spec fn spec_name(self) -> u64 {
        self.name
    }

    /// The bit width the table covers.
    pub closed spec fn width(self) -> usize {
        self.log_size
    }
}

/// The constraint-building context.
pub struct Builder {
    /// Public inputs, in allocation order: the order verifiers bind to.
    pub publics: Vec<Fe>,
    /// Private (witness) allocations, in allocation order.
    pub privates: Vec<Fe>,
    /// The range-table registry.
    pub tables: Vec<RangeTable>,
}

impl Builder {
    /// A fresh context with nothing allocated and no tables.
    pub fn new() -> (r: Builder)
        ensures
            r.publics@.len() == 0,
            r.privates@.len() == 0,
            r.tables@.len() == 0,
    {
        Builder { publics: Vec::new(), privates: Vec::new(), tables: Vec::new() }
    }
}

/// The location bits as 0/1 field-element values.
pub open spec fn bools_to_nats(s: Seq<bool>) -> Seq<nat> {
    Seq::new(s.len(), |i: int| if s[i] { 1nat } else { 0nat })
}

/// The first table registered under a name.
pub open spec fn find_table(ts: Seq<RangeTable>, name: u64) -> Option<RangeTable>
    decreases ts.len(),
{
    if ts.len() == 0 {
        None
    } else if ts[0].spec_name() == name {
        Some(ts[0])
    } else {
        find_table(ts.drop_first(), name)
    }
}

proof fn lemma_find_table_name(ts: Seq<RangeTable>, name: u64)
    ensures
        match find_table(ts, name) {
            Some(t) => t.spec_name() == name,
            None => true,
        },
    decreases ts.len(),
{
    if ts.len() > 0 && ts[0].spec_name() != name {
        lemma_find_table_name(ts.drop_first(), name);
    }
}

/// A table registered under an unused name is found under it afterwards.
pub proof fn lemma_find_table_push(ts: Seq<RangeTable>, t: RangeTable)
    requires
        find_table(ts, t.spec_name()).is_none(),
    ensures
        find_table(ts.push(t), t.spec_name()) == Some(t),
    decreases ts.len(),
{
    if ts.len() == 0 {
        assert(ts.push(t)[0] == t);
    } else {
        assert(ts.push(t)[0] == ts[0]);
        assert(ts.push(t).drop_first() =~= ts.drop_first().push(t));
        lemma_find_table_push(ts.drop_first(), t);
    }
}

/// Looks a table up by name.
fn get_table(cs: &Builder, name: u64) -> (r: Option<RangeTable>)
    ensures
        r == find_table(cs.tables@, name),
{
    proof {
        assert(cs.tables@.skip(0) =~= cs.tables@);
    }
    let mut i: usize = 0;
    while i < cs.tables.len()
        invariant
            i <= cs.tables@.len(),
            find_table(cs.tables@, name) == find_table(cs.tables@.skip(i as int), name),
        decreases cs.tables@.len() - i,
    {
        proof {
            assert(cs.tables@.skip(i as int)[0] == cs.tables@[i as int]);
            assert(cs.tables@.skip(i as int).drop_first() =~= cs.tables@.skip(i as int + 1));
        }
        let t = cs.tables[i];
        if t.name == name {
            return Some(t);
        }
        i = i + 1;
    }
    proof {
        assert(cs.tables@.skip(cs.tables@.len() as int).len() == 0);
    }
    None
}

/// Allocates one public input.
pub fn num_alloc_input(cs: &mut Builder, input: &Option<Fe>) -> (r: Result<Fe, SynthError>)
    ensures
        match (r, *input) {
            (Ok(v), Some(w)) => v == w
                && final(cs).publics@ == old(cs).publics@.push(w)
                && final(cs).privates@ == old(cs).privates@
                && final(cs).tables@ == old(cs).tables@,
            (Err(e), None) => e == SynthError::MissingWitness && *final(cs) == *old(cs),
            _ => false,
        },
{
    match input {
        Some(v) => {
            cs.publics.push(*v);
            Ok(*v)
        },
        None => Err(SynthError::MissingWitness),
    }
}

/// Allocates one private witness value.
pub fn alloc_num(cs: &mut Builder, input: &Option<Fe>) -> (r: Result<Fe, SynthError>)
    ensures
        match (r, *input) {
            (Ok(v), Some(w)) => v == w
                && final(cs).privates@ == old(cs).privates@.push(w)
                && final(cs).publics@ == old(cs).publics@
                && final(cs).tables@ == old(cs).tables@,
            (Err(e), None) => e == SynthError::MissingWitness && *final(cs) == *old(cs),
            _ => false,
        },
{
    match input {
        Some(v) => {
            cs.privates.push(*v);
            Ok(*v)
        },
        None => Err(SynthError::MissingWitness),
    }
}

/// Allocates one public boolean input, recorded as a 0/1 field element and
/// constrained to be a bit.
pub fn alloc_input_boolean(cs: &mut Builder, value: Option<bool>) -> (r: Result<
    bool,
    SynthError,
>)
    ensures
        match (r, value) {
            (Ok(b), Some(w)) => b == w
                && final(cs).publics@.len() == old(cs).publics@.len() + 1
                && views(final(cs).publics@)
                    == views(old(cs).publics@).push(if w { 1nat } else { 0nat })
                && final(cs).privates@ == old(cs).privates@
                && final(cs).tables@ == old(cs).tables@,
            (Err(e), None) => e == SynthError::MissingWitness && *final(cs) == *old(cs),
            _ => false,
        },
{
    match value {
        Some(b) => {
            let fe = if b {
                fe_one()
            } else {
                fe_zero()
            };
            cs.publics.push(fe);
            proof {
                assert(views(cs.publics@)
                    =~= views(old(cs).publics@).push(if b { 1nat } else { 0nat }));
            }
            Ok(b)
        },
        None => Err(SynthError::MissingWitness),
    }
}

/// Allocates one private boolean witness, recorded as a 0/1 field element.
pub fn alloc_boolean(cs: &mut Builder, value: Option<bool>) -> (r: Result<bool, SynthError>)
    ensures
        match (r, value) {
            (Ok(b), Some(w)) => b == w
                && final(cs).privates@.len() == old(cs).privates@.len() + 1
                && views(final(cs).privates@)
                    == views(old(cs).privates@).push(if w { 1nat } else { 0nat })
                && final(cs).publics@ == old(cs).publics@
                && final(cs).tables@ == old(cs).tables@,
            (Err(e), None) => e == SynthError::MissingWitness && *final(cs) == *old(cs),
            _ => false,
        },
{
    match value {
        Some(b) => {
            let fe = if b {
                fe_one()
            } else {
                fe_zero()
            };
            cs.privates.push(fe);
            proof {
                assert(views(cs.privates@)
                    =~= views(old(cs).privates@).push(if b { 1nat } else { 0nat }));
            }
            Ok(b)
        },
        None => Err(SynthError::MissingWitness),
    }
}

/// Whether every entry of a witnessed location is supplied.
pub open spec fn location_complete(s: Seq<Option<bool>>) -> bool {
    forall|i: int| 0 <= i < s.len() ==> s[i].is_some()
}

/// The supplied bits of a witnessed location.
pub open spec fn location_bits(s: Seq<Option<bool>>) -> Seq<bool> {
    Seq::new(s.len(), |i: int| s[i].unwrap())
}

/// Allocates a location as public boolean inputs, bit by bit.
pub fn alloc_input_location(cs: &mut Builder, bit_location: &Vec<Option<bool>>) -> (r: Result<
    Vec<bool>,
    SynthError,
>)
    ensures
        match r {
            Ok(bits) => bit_location@.len() == ACC_DEPTH
                && location_complete(bit_location@)
                && bits@ == location_bits(bit_location@)
                && views(final(cs).publics@)
                    == views(old(cs).publics@) + bools_to_nats(bits@)
                && final(cs).privates@ == old(cs).privates@
                && final(cs).tables@ == old(cs).tables@,
            Err(e) => *final(cs) == *old(cs)
                && if bit_location@.len() != ACC_DEPTH {
                    e == SynthError::StructuralMismatch
                } else {
                    e == SynthError::MissingWitness && !location_complete(bit_location@)
                },
        },
{
    let bits = unwrap_location(bit_location)?;
    proof {
        assert(views(cs.publics@) =~= views(old(cs).publics@) + bools_to_nats(bits@.take(0)));
    }
    let mut i: usize = 0;
    while i < bits.len()
        invariant
            i <= bits@.len(),
            views(cs.publics@) == views(old(cs).publics@) + bools_to_nats(bits@.take(i as int)),
            cs.privates@ == old(cs).privates@,
            cs.tables@ == old(cs).tables@,
        decreases bits@.len() - i,
    {
        let fe = if bits[i] {
            fe_one()
        } else {
            fe_zero()
        };
        let ghost prev = cs.publics@;
        cs.publics.push(fe);
        proof {
            crate::field::lemma_views_push(prev, fe);
            assert(bools_to_nats(bits@.take(i as int + 1))
                =~= bools_to_nats(bits@.take(i as int)).push(if bits@[i as int] { 1nat } else { 0nat }));
            assert(views(old(cs).publics@) + bools_to_nats(bits@.take(i as int + 1))
                =~= (views(old(cs).publics@) + bools_to_nats(bits@.take(i as int))).push(
                    if bits@[i as int] { 1nat } else { 0nat }));
        }
        i = i + 1;
    }
    proof {
        assert(bits@.take(bits@.len() as int) =~= bits@);
    }
    Ok(bits)
}

/// Allocates a location as private boolean witnesses, bit by bit.
pub fn alloc_location(cs: &mut Builder, bit_location: &Vec<Option<bool>>) -> (r: Result<
    Vec<bool>,
    SynthError,
>)
    ensures
        match r {
            Ok(bits) => bit_location@.len() == ACC_DEPTH
                && location_complete(bit_location@)
                && bits@ == location_bits(bit_location@)
                && views(final(cs).privates@)
                    == views(old(cs).privates@) + bools_to_nats(bits@)
                && final(cs).publics@ == old(cs).publics@
                && final(cs).tables@ == old(cs).tables@,
            Err(e) => *final(cs) == *old(cs)
                && if bit_location@.len() != ACC_DEPTH {
                    e == SynthError::StructuralMismatch
                } else {
                    e == SynthError::MissingWitness && !location_complete(bit_location@)
                },
        },
{
    let bits = unwrap_location(bit_location)?;
    proof {
        assert(views(cs.privates@) =~= views(old(cs).privates@) + bools_to_nats(bits@.take(0)));
    }
    let mut i: usize = 0;
    while i < bits.len()
        invariant
            i <= bits@.len(),
            views(cs.privates@) == views(old(cs).privates@) + bools_to_nats(bits@.take(i as int)),
            cs.publics@ == old(cs).publics@,
            cs.tables@ == old(cs).tables@,
        decreases bits@.len() - i,
    {
        let fe = if bits[i] {
            fe_one()
        } else {
            fe_zero()
        };
        let ghost prev = cs.privates@;
        cs.privates.push(fe);
        proof {
            crate::field::lemma_views_push(prev, fe);
            assert(bools_to_nats(bits@.take(i as int + 1))
                =~= bools_to_nats(bits@.take(i as int)).push(if bits@[i as int] { 1nat } else { 0nat }));
            assert(views(old(cs).privates@) + bools_to_nats(bits@.take(i as int + 1))
                =~= (views(old(cs).privates@) + bools_to_nats(bits@.take(i as int))).push(
                    if bits@[i as int] { 1nat } else { 0nat }));
        }
        i = i + 1;
    }
    proof {
        assert(bits@.take(bits@.len() as int) =~= bits@);
    }
    Ok(bits)
}

/// Checks a witnessed location's shape and unwraps its bits.
fn unwrap_location(bit_location: &Vec<Option<bool>>) -> (r: Result<Vec<bool>, SynthError>)
    ensures
        match r {
            Ok(bits) => bit_location@.len() == ACC_DEPTH
                && location_complete(bit_location@)
                && bits@ == location_bits(bit_location@),
            Err(e) => if bit_location@.len() != ACC_DEPTH {
                e == SynthError::StructuralMismatch
            } else {
                e == SynthError::MissingWitness && !location_complete(bit_location@)
            },
        },
{
    if bit_location.len() != ACC_DEPTH {
        return Err(SynthError::StructuralMismatch);
    }
    let mut bits: Vec<bool> = Vec::new();
    let mut i: usize = 0;
    while i < bit_location.len()
        invariant
            bit_location@.len() == ACC_DEPTH,
            i <= bit_location@.len(),
            bits@.len() == i,
            forall|k: int| 0 <= k < i ==> bit_location@[k].is_some(),
            forall|k: int| 0 <= k < i ==> bits@[k] == bit_location@[k].unwrap(),
        decreases bit_location@.len() - i,
    {
        match bit_location[i] {
            Some(b) => bits.push(b),
            None => {
                proof {
                    assert(0 <= i < bit_location@.len() && bit_location@[i as int].is_none());
                    assert(!location_complete(bit_location@));
                }
                return Err(SynthError::MissingWitness);
            },
        }
        i = i + 1;
    }
    proof {
        assert(bits@ =~= location_bits(bit_location@));
    }
    Ok(bits)
}

/// Whether every entry of a witnessed state array is supplied.
pub open spec fn state_complete(s: Seq<Option<Fe>>) -> bool {
    forall|i: int| 0 <= i < s.len() ==> s[i].is_some()
}

/// The supplied values of a witnessed state array.
pub open spec fn state_values(s: Seq<Option<Fe>>) -> Seq<Fe> {
    Seq::new(s.len(), |i: int| s[i].unwrap())
}

/// Allocates a witnessed state array as private values.
pub fn alloc_state(cs: &mut Builder, wit_state: &Vec<Option<Fe>>) -> (r: Result<
    Vec<Fe>,
    SynthError,
>)
    ensures
        match r {
            Ok(state) => wit_state@.len() == ACC_NUM
                && state_complete(wit_state@)
                && state@ == state_values(wit_state@)
                && final(cs).privates@ == old(cs).privates@ + state@
                && final(cs).publics@ == old(cs).publics@
                && final(cs).tables@ == old(cs).tables@,
            Err(e) => *final(cs) == *old(cs)
                && if wit_state@.len() != ACC_NUM {
                    e == SynthError::StructuralMismatch
                } else {
                    e == SynthError::MissingWitness && !state_complete(wit_state@)
                },
        },
{
    if wit_state.len() != ACC_NUM {
        return Err(SynthError::StructuralMismatch);
    }
    let mut state: Vec<Fe> = Vec::new();
    let mut i: usize = 0;
    while i < wit_state.len()
        invariant
            wit_state@.len() == ACC_NUM,
            i <= wit_state@.len(),
            state@.len() == i,
            forall|k: int| 0 <= k < i ==> wit_state@[k].is_some(),
            forall|k: int| 0 <= k < i ==> state@[k] == wit_state@[k].unwrap(),
        decreases wit_state@.len() - i,
    {
        match wit_state[i] {
            Some(v) => state.push(v),
            None => {
                proof {
                    assert(0 <= i < wit_state@.len() && wit_state@[i as int].is_none());
                    assert(!state_complete(wit_state@));
                }
                return Err(SynthError::MissingWitness);
            },
        }
        i = i + 1;
    }
    proof {
        assert(state@ =~= state_values(wit_state@));
    }
    proof {
        assert(cs.privates@ =~= old(cs).privates@ + state@.take(0));
    }
    let mut j: usize = 0;
    while j < state.len()
        invariant
            j <= state@.len(),
            state@ == state_values(wit_state@),
            wit_state@.len() == ACC_NUM,
            cs.privates@ == old(cs).privates@ + state@.take(j as int),
            cs.publics@ == old(cs).publics@,
            cs.tables@ == old(cs).tables@,
        decreases state@.len() - j,
    {
        let v = state[j];
        cs.privates.push(v);
        proof {
            assert(cs.privates@ =~= old(cs).privates@ + state@.take(j as int + 1));
        }
        j = j + 1;
    }
    proof {
        assert(state@.take(state@.len() as int) =~= state@);
    }
    Ok(state)
}

/// Re-allocates an already-known state array as fresh private values,
/// returning the same values.
pub fn realloc_state(cs: &mut Builder, state: &Vec<Fe>) -> (r: Vec<Fe>)
    ensures
        r@ == state@,
        final(cs).privates@ == old(cs).privates@ + state@,
        final(cs).publics@ == old(cs).publics@,
        final(cs).tables@ == old(cs).tables@,
{
    let mut res: Vec<Fe> = Vec::new();
    proof {
        assert(res@ =~= state@.take(0));
        assert(cs.privates@ =~= old(cs).privates@ + state@.take(0));
    }
    let mut i: usize = 0;
    while i < state.len()
        invariant
            i <= state@.len(),
            res@ == state@.take(i as int),
            cs.privates@ == old(cs).privates@ + state@.take(i as int),
            cs.publics@ == old(cs).publics@,
            cs.tables@ == old(cs).tables@,
        decreases state@.len() - i,
    {
        let v = state[i];
        res.push(v);
        cs.privates.push(v);
        proof {
            assert(res@ =~= state@.take(i as int + 1));
            assert(cs.privates@ =~= old(cs).privates@ + state@.take(i as int + 1));
        }
        i = i + 1;
    }
    proof {
        assert(state@.take(state@.len() as int) =~= state@);
    }
    res
}

/// Registers a range table of the given bit width under a name, or fetches
/// the table already registered under it. Reusing a name with a different
/// width is a conflict; widths outside the machine word are rejected as
/// structural errors.
pub fn create_range_table(cs: &mut Builder, name: u64, log_size: usize) -> (r: Result<
    RangeTable,
    SynthError,
>)
    ensures
        match r {
            Ok(t) => 0 < log_size < 64 && t.spec_name() == name && t.width() == log_size
                && final(cs).publics@ == old(cs).publics@
                && final(cs).privates@ == old(cs).privates@
                && match find_table(old(cs).tables@, name) {
                    Some(t0) => t0 == t && *final(cs) == *old(cs),
                    None => final(cs).tables@ == old(cs).tables@.push(t),
                },
            Err(e) => *final(cs) == *old(cs)
                && if !(0 < log_size < 64) {
                    e == SynthError::StructuralMismatch
                } else {
                    e == SynthError::TableConflict
                        && match find_table(old(cs).tables@, name) {
                            Some(t0) => t0.width() != log_size,
                            None => false,
                        }
                },
        },
{
    if log_size == 0 || log_size >= 64 {
        return Err(SynthError::StructuralMismatch);
    }
    match get_table(cs, name) {
        Some(t0) => {
            proof {
                use_type_invariant(t0);
                lemma_find_table_name(cs.tables@, name);
            }
            if t0.log_size == log_size {
                Ok(t0)
            } else {
                Err(SynthError::TableConflict)
            }
        },
        None => {
            let t = RangeTable { name, log_size };
            cs.tables.push(t);
            Ok(t)
        },
    }
}

/// Checks a value's membership in a registered range table: the value must
/// be representable in the table's bit width.
pub fn range_check(cs: &Builder, value: &Fe, name: u64) -> (r: Result<(), SynthError>)
    ensures
        match r {
            Ok(_) => match find_table(cs.tables@, name) {
                Some(t) => value@ < pow2(t.width() as nat),
                None => false,
            },
            Err(e) => match find_table(cs.tables@, name) {
                None => e == SynthError::StructuralMismatch,
                Some(t) => e == SynthError::RangeViolation
                    && value@ >= pow2(t.width() as nat),
            },
        },
{
    match get_table(cs, name) {
        Some(t) => {
            proof {
                use_type_invariant(t);
            }
            if fe_fits_bits(value, t.log_size) {
                Ok(())
            } else {
                Err(SynthError::RangeViolation)
            }
        },
        None => Err(SynthError::StructuralMismatch),
    }
}

/// Debit-and-credit with range enforcement: computes
/// `new_from = from_amount - amount` and `new_to = to_amount + amount` in
/// the field, then checks `amount` and `new_from` against the range table.
/// The check on `new_from` is the sole defence against spending more than
/// the sender holds: a too-large `amount` wraps the difference around the
/// field order into a huge value that the table rejects.
pub fn send_tokens(cs: &Builder, from_amount: &Fe, to_amount: &Fe, amount: &Fe, range_table_name:
    u64) -> (r: Result<(Fe, Fe), SynthError>)
    ensures
        match r {
            Ok((nf, nt)) => nf@ == fe_sub_spec(from_amount@, amount@)
                && nt@ == fe_add_spec(to_amount@, amount@)
                && match find_table(cs.tables@, range_table_name) {
                    Some(t) => amount@ < pow2(t.width() as nat)
                        && nf@ < pow2(t.width() as nat),
                    None => false,
                },
            Err(e) => match find_table(cs.tables@, range_table_name) {
                None => e == SynthError::StructuralMismatch,
                Some(t) => e == SynthError::RangeViolation
                    && (amount@ >= pow2(t.width() as nat)
                        || fe_sub_spec(from_amount@, amount@) >= pow2(t.width() as nat)),
            },
        },
{
    let from_new_amount = fe_sub(from_amount, amount);
    let to_new_amount = fe_add(to_amount, amount);
    match range_check(cs, amount, range_table_name) {
        Ok(_) => {},
        Err(e) => {
            return Err(e);
        },
    }
    match range_check(cs, &from_new_amount, range_table_name) {
        Ok(_) => {},
        Err(e) => {
            return Err(e);
        },
    }
    Ok((from_new_amount, to_new_amount))
}

/// A self-check over the select-and-compare primitives: allocates known
/// values, selects by a true flag and asserts the selection equals the
/// first operand, over a number of repetitions.
pub fn inner_circuit_main_gate_part(cs: &mut Builder) -> (r: Result<(), SynthError>)
    ensures
        r == Ok::<(), SynthError>(()),
        final(cs).privates@.len() == old(cs).privates@.len() + 96,
        final(cs).publics@ == old(cs).publics@,
        final(cs).tables@ == old(cs).tables@,
{
    let mut i: usize = 0;
    while i < 32
        invariant
            i <= 32,
            cs.privates@.len() == old(cs).privates@.len() + 3 * i,
            cs.publics@ == old(cs).publics@,
            cs.tables@ == old(cs).tables@,
        decreases 32 - i,
    {
        let a = match alloc_num(cs, &Some(fe_one())) {
            Ok(v) => v,
            Err(_) => {
                return Err(SynthError::MissingWitness);
            },
        };
        let b = match alloc_num(cs, &Some(fe_zero())) {
            Ok(v) => v,
            Err(_) => {
                return Err(SynthError::MissingWitness);
            },
        };
        let flag = match alloc_boolean(cs, Some(true)) {
            Ok(v) => v,
            Err(_) => {
                return Err(SynthError::MissingWitness);
            },
        };
        let c = conditionally_select(flag, &a, &b);
        if !fe_eq(&a, &c) {
            return Err(SynthError::EqualityViolation);
        }
        i = i + 1;
    }
    Ok(())
}

} // verus!

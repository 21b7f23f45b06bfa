//! The fixed compression function used to build commitments, over one or
//! two field elements.
//!
//! The proving backend supplies an algebraic, collision-resistant
//! compression function (a Rescue sponge); none of the commitment-engine or
//! circuit proofs depend on which compression is used, only on it being a
//! fixed deterministic function, so its definition is kept opaque
//! (`closed spec`). The library ships a stand-in built on the verified
//! field arithmetic: an affine combination of the inputs, a product of
//! their outer limbs as the nonlinear term, and a limb rotation. It is a
//! placeholder, not a cryptographic hash.

use vstd::prelude::*;
use vstd::arithmetic::div_mod::{lemma_add_mod_noop, lemma_small_mod};
use crate::field::{
    Fe, fe_add, fe_cross, fe_cross_spec, lemma_cross_bound, fe_from_u64, fe_rotate,
    fe_rotate_spec, field_order, fe_add_spec,
};

verus! {

/// Compression of a single field element, used for the public-key
/// derivation in the placeholder authentication scheme.
pub closed spec fn h1(x: nat) -> nat {
    fe_rotate_spec((3 * x + fe_cross_spec(x, x) + 0x9e3779b97f4a7c15) % field_order())
}

/// Compression of an ordered pair of field elements, the node function of
/// the Merkle commitment tree.
pub closed spec fn h2(a: nat, b: nat) -> nat {
    fe_rotate_spec((3 * a + 5 * b + fe_cross_spec(a, b) + 0x517cc1b727220a95) % field_order())
}

/// Hashes one field element.
pub fn hash_number(x: &Fe) -> (r: Fe)
    ensures
        r@ == h1(x@),
{
    proof {
        use_type_invariant(*x);
        lemma_small_mod(x@, field_order());
        lemma_add_mod_noop((x@ + x@) as int, x@ as int, field_order() as int);
        lemma_add_mod_noop((3 * x@) as int, fe_cross_spec(x@, x@) as int, field_order() as int);
        lemma_cross_bound(x@, x@);
        lemma_small_mod(fe_cross_spec(x@, x@), field_order());
        lemma_add_mod_noop(
            (3 * x@ + fe_cross_spec(x@, x@)) as int,
            0x9e3779b97f4a7c15,
            field_order() as int,
        );
        lemma_small_mod(0x9e3779b97f4a7c15nat, field_order());
    }
    let t = fe_add(x, x);
    let t = fe_add(&t, x);
    let c = fe_cross(x, x);
    let t = fe_add(&t, &c);
    let k = fe_from_u64(0x9e3779b97f4a7c15);
    fe_rotate(&fe_add(&t, &k))
}

/// Hashes an ordered pair of field elements.
pub fn hash_two_numbers(a: &Fe, b: &Fe) -> (r: Fe)
    ensures
        r@ == h2(a@, b@),
{
    proof {
        use_type_invariant(*a);
        use_type_invariant(*b);
        lemma_small_mod(a@, field_order());
        lemma_small_mod(b@, field_order());
        lemma_add_mod_noop((a@ + a@) as int, a@ as int, field_order() as int);
        lemma_add_mod_noop((b@ + b@) as int, b@ as int, field_order() as int);
        lemma_add_mod_noop((3 * b@) as int, (2 * b@) as int, field_order() as int);
        lemma_add_mod_noop((2 * b@) as int, b@ as int, field_order() as int);
        lemma_add_mod_noop((3 * a@) as int, (5 * b@) as int, field_order() as int);
        lemma_add_mod_noop(
            (3 * a@ + 5 * b@) as int,
            fe_cross_spec(a@, b@) as int,
            field_order() as int,
        );
        lemma_cross_bound(a@, b@);
        lemma_small_mod(fe_cross_spec(a@, b@), field_order());
        lemma_add_mod_noop(
            (3 * a@ + 5 * b@ + fe_cross_spec(a@, b@)) as int,
            0x517cc1b727220a95,
            field_order() as int,
        );
        lemma_small_mod(0x517cc1b727220a95nat, field_order());
    }
    let ta = fe_add(a, a);
    let ta = fe_add(&ta, a);
    let tb = fe_add(b, b);
    let tb3 = fe_add(&tb, b);
    let tb5 = fe_add(&tb3, &tb);
    let s = fe_add(&ta, &tb5);
    let c = fe_cross(a, b);
    let s = fe_add(&s, &c);
    let k = fe_from_u64(0x517cc1b727220a95);
    fe_rotate(&fe_add(&s, &k))
}

/// Compression of an ordered triple of field elements.
pub closed spec fn h3(a: nat, b: nat, c: nat) -> nat {
    fe_rotate_spec(
        (3 * a + 5 * b + 7 * c + fe_cross_spec(a, c) + 0x6c62272e07bb0142) % field_order(),
    )
}

/// Hashes an ordered triple of field elements.
pub fn hash_three_numbers(a: &Fe, b: &Fe, c: &Fe) -> (r: Fe)
    ensures
        r@ == h3(a@, b@, c@),
{
    proof {
        use_type_invariant(*a);
        use_type_invariant(*b);
        use_type_invariant(*c);
        lemma_small_mod(a@, field_order());
        lemma_small_mod(b@, field_order());
        lemma_small_mod(c@, field_order());
        lemma_add_mod_noop((a@ + a@) as int, a@ as int, field_order() as int);
        lemma_add_mod_noop((b@ + b@) as int, b@ as int, field_order() as int);
        lemma_add_mod_noop((3 * b@) as int, (2 * b@) as int, field_order() as int);
        lemma_add_mod_noop((2 * b@) as int, b@ as int, field_order() as int);
        lemma_add_mod_noop((2 * c@) as int, (2 * c@) as int, field_order() as int);
        lemma_add_mod_noop((4 * c@) as int, (2 * c@) as int, field_order() as int);
        lemma_add_mod_noop((6 * c@) as int, c@ as int, field_order() as int);
        lemma_add_mod_noop((3 * a@) as int, (5 * b@) as int, field_order() as int);
        lemma_add_mod_noop((3 * a@ + 5 * b@) as int, (7 * c@) as int, field_order() as int);
        lemma_add_mod_noop(
            (3 * a@ + 5 * b@ + 7 * c@) as int,
            fe_cross_spec(a@, c@) as int,
            field_order() as int,
        );
        lemma_cross_bound(a@, c@);
        lemma_small_mod(fe_cross_spec(a@, c@), field_order());
        lemma_add_mod_noop(
            (3 * a@ + 5 * b@ + 7 * c@ + fe_cross_spec(a@, c@)) as int,
            0x6c62272e07bb0142,
            field_order() as int,
        );
        lemma_small_mod(0x6c62272e07bb0142nat, field_order());
    }
    let ta = fe_add(a, a);
    let ta = fe_add(&ta, a);
    let tb = fe_add(b, b);
    let tb3 = fe_add(&tb, b);
    let tb5 = fe_add(&tb3, &tb);
    let tc2 = fe_add(c, c);
    let tc4 = fe_add(&tc2, &tc2);
    let tc6 = fe_add(&tc4, &tc2);
    let tc7 = fe_add(&tc6, c);
    let s = fe_add(&ta, &tb5);
    let s = fe_add(&s, &tc7);
    let cr = fe_cross(a, c);
    let s = fe_add(&s, &cr);
    let k = fe_from_u64(0x6c62272e07bb0142);
    fe_rotate(&fe_add(&s, &k))
}

} // verus!

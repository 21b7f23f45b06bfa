//! Field elements of the scalar field that the proving backend works over:
//! the BN254 scalar field. Values are held in canonical (fully reduced)
//! form as four 64-bit limbs, least significant first, and addition and
//! subtraction are carried out on the limbs with full correctness proofs.

use vstd::prelude::*;
use vstd::arithmetic::power2::{pow2, lemma_pow2_strictly_increases, lemma2_to64};
use vstd::arithmetic::div_mod::{
    lemma_fundamental_div_mod, lemma_mod_division_less_than_divisor,
    lemma_small_mod, lemma_mod_add_multiples_vanish,
    lemma_fundamental_div_mod_converse_mod, lemma_fundamental_div_mod_converse_div,
    lemma_mod_sub_multiples_vanish, lemma_multiply_divide_lt,
};
use vstd::bits::{lemma_u64_shl_is_mul, lemma_u64_pow2_no_overflow};

verus! {

/// The order of the scalar field of the BN254 pairing curve, the field in
/// which all witnessed quantities live.
pub open spec fn field_order() -> nat {
    21888242871839275222246405745257275088548364400416034343698204186575808495617nat
}

/// The value of four 64-bit limbs, least significant first.
pub open spec fn limbs_nat(l0: u64, l1: u64, l2: u64, l3: u64) -> nat {
    (l0
        + l1 * 0x10000000000000000
        + l2 * 0x100000000000000000000000000000000
        + l3 * 0x1000000000000000000000000000000000000000000000000) as nat
}

/// One field element in canonical representation:
/// `value = l0 + 2^64*l1 + 2^128*l2 + 2^192*l3 < field_order()`.
#[derive(Clone, Copy, Debug, PartialEq, Eq, Structural)]
pub struct Fe {
    l0: u64,
    l1: u64,
    l2: u64,
    l3: u64,
}

impl View for Fe {
    type V = nat;

    closed spec fn view(&self) -> nat {
        limbs_nat(self.l0, self.l1, self.l2, self.l3)
    }
}

impl Fe {
    #[verifier::type_invariant]
    pub(crate) open spec fn canonical(self) -> bool {
        self@ < field_order()
    }
}

/// The value sequence of a sequence of field elements.
pub open spec fn views(s: Seq<Fe>) -> Seq<nat> {
    Seq::new(s.len(), |i: int| s[i]@)
}

/// Appending one element appends its value to the value sequence.
pub proof fn lemma_views_push(s: Seq<Fe>, v: Fe)
    ensures
        views(s.push(v)) == views(s).push(v@),
{
    assert(views(s.push(v)) =~= views(s).push(v@));
}

/// Replacing one element replaces its value in the value sequence.
pub proof fn lemma_views_update(s: Seq<Fe>, i: int, v: Fe)
    requires
        0 <= i < s.len(),
    ensures
        views(s.update(i, v)) == views(s).update(i, v@),
{
    assert(views(s.update(i, v)) =~= views(s).update(i, v@));
}

/// Addition in the field.
pub open spec fn fe_add_spec(a: nat, b: nat) -> nat {
    (a + b) % field_order()
}

/// Subtraction in the field.
pub open spec fn fe_sub_spec(a: nat, b: nat) -> nat {
    ((a + field_order() - b) % (field_order() as int)) as nat
}

/// The zero element.
pub fn fe_zero() -> (r: Fe)
    ensures
        r@ == 0,
{
    Fe { l0: 0, l1: 0, l2: 0, l3: 0 }
}

/// The one element.
pub fn fe_one() -> (r: Fe)
    ensures
        r@ == 1,
{
    Fe { l0: 1, l1: 0, l2: 0, l3: 0 }
}

/// Embeds a machine integer into the field.
pub fn fe_from_u64(v: u64) -> (r: Fe)
    ensures
        r@ == v,
{
    Fe { l0: v, l1: 0, l2: 0, l3: 0 }
}

/// Two canonical representations are equal exactly when they denote the
/// same field element.
pub fn fe_eq(a: &Fe, b: &Fe) -> (r: bool)
    ensures
        r <==> a@ == b@,
{
    a.l0 == b.l0 && a.l1 == b.l1 && a.l2 == b.l2 && a.l3 == b.l3
}

/// Tests for the zero element.
pub fn fe_is_zero(a: &Fe) -> (r: bool)
    ensures
        r <==> a@ == 0,
{
    a.l0 == 0 && a.l1 == 0 && a.l2 == 0 && a.l3 == 0
}

/// Splits a value below `2^65` into a low limb and a carry bit.
fn split64(t: u128) -> (r: (u64, u128))
    requires
        t < 0x20000000000000000,
    ensures
        t == r.0 + r.1 * 0x10000000000000000,
        r.1 <= 1,
{
    proof {
        lemma_fundamental_div_mod(t as int, 0x10000000000000000);
        lemma_mod_division_less_than_divisor(t as int, 0x10000000000000000);
    }
    ((t % 0x10000000000000000) as u64, t / 0x10000000000000000)
}

/// Four-limb addition: the result plus `2^256` times the returned carry
/// equals the sum of the two inputs.
fn add4(a: (u64, u64, u64, u64), b: (u64, u64, u64, u64)) -> (r: (u64, u64, u64, u64, u64))
    ensures
        limbs_nat(r.0, r.1, r.2, r.3)
            + r.4 * 0x10000000000000000000000000000000000000000000000000000000000000000
            == limbs_nat(a.0, a.1, a.2, a.3) + limbs_nat(b.0, b.1, b.2, b.3),
        r.4 <= 1,
{
    let (r0, c0) = split64(a.0 as u128 + b.0 as u128);
    let (r1, c1) = split64(a.1 as u128 + b.1 as u128 + c0);
    let (r2, c2) = split64(a.2 as u128 + b.2 as u128 + c1);
    let (r3, c3) = split64(a.3 as u128 + b.3 as u128 + c2);
    (r0, r1, r2, r3, c3 as u64)
}

/// Four-limb subtraction for `b <= a`.
fn sub4(a: (u64, u64, u64, u64), b: (u64, u64, u64, u64)) -> (r: (u64, u64, u64, u64))
    requires
        limbs_nat(b.0, b.1, b.2, b.3) <= limbs_nat(a.0, a.1, a.2, a.3),
    ensures
        limbs_nat(r.0, r.1, r.2, r.3)
            == limbs_nat(a.0, a.1, a.2, a.3) - limbs_nat(b.0, b.1, b.2, b.3),
{
    let (r0, w0) = split64(a.0 as u128 + 0x10000000000000000 - b.0 as u128);
    let (r1, w1) = split64(a.1 as u128 + 0x10000000000000000 - b.1 as u128 - (1 - w0));
    let (r2, w2) = split64(a.2 as u128 + 0x10000000000000000 - b.2 as u128 - (1 - w1));
    let (r3, w3) = split64(a.3 as u128 + 0x10000000000000000 - b.3 as u128 - (1 - w2));
    proof {
        assert(limbs_nat(r0, r1, r2, r3)
            == limbs_nat(a.0, a.1, a.2, a.3) - limbs_nat(b.0, b.1, b.2, b.3)
            + (1 - w3) * 0x10000000000000000000000000000000000000000000000000000000000000000);
    }
    (r0, r1, r2, r3)
}

/// Four-limb comparison.
fn ge4(a: (u64, u64, u64, u64), b: (u64, u64, u64, u64)) -> (r: bool)
    ensures
        r <==> limbs_nat(a.0, a.1, a.2, a.3) >= limbs_nat(b.0, b.1, b.2, b.3),
{
    if a.3 != b.3 {
        a.3 > b.3
    } else if a.2 != b.2 {
        a.2 > b.2
    } else if a.1 != b.1 {
        a.1 > b.1
    } else {
        a.0 >= b.0
    }
}

/// The limbs of the field order.
fn order_limbs() -> (r: (u64, u64, u64, u64))
    ensures
        limbs_nat(r.0, r.1, r.2, r.3) == field_order(),
{
    (0x43e1f593f0000001, 0x2833e84879b97091, 0xb85045b68181585d, 0x30644e72e131a029)
}

/// A value below twice the field order reduces by at most one subtraction.
proof fn lemma_mod_once(x: int)
    requires
        0 <= x < 2 * field_order(),
    ensures
        x % (field_order() as int) == if x < field_order() { x } else { x - field_order() },
{
    if x < field_order() {
        lemma_small_mod(x as nat, field_order());
    } else {
        lemma_mod_add_multiples_vanish(x - field_order(), field_order() as int);
        lemma_small_mod((x - field_order()) as nat, field_order());
    }
}

/// Addition in the field, on canonical representations.
pub fn fe_add(a: &Fe, b: &Fe) -> (r: Fe)
    ensures
        r@ == fe_add_spec(a@, b@),
{
    proof {
        use_type_invariant(*a);
        use_type_invariant(*b);
    }
    let s = add4((a.l0, a.l1, a.l2, a.l3), (b.l0, b.l1, b.l2, b.l3));
    proof {
        assert(s.4 == 0);
    }
    let p = order_limbs();
    let red = if ge4((s.0, s.1, s.2, s.3), p) {
        sub4((s.0, s.1, s.2, s.3), p)
    } else {
        (s.0, s.1, s.2, s.3)
    };
    proof {
        lemma_mod_once((a@ + b@) as int);
    }
    Fe { l0: red.0, l1: red.1, l2: red.2, l3: red.3 }
}

/// Subtraction in the field, on canonical representations.
pub fn fe_sub(a: &Fe, b: &Fe) -> (r: Fe)
    ensures
        r@ == fe_sub_spec(a@, b@),
{
    proof {
        use_type_invariant(*a);
        use_type_invariant(*b);
    }
    let p = order_limbs();
    let al = (a.l0, a.l1, a.l2, a.l3);
    let bl = (b.l0, b.l1, b.l2, b.l3);
    let red = if ge4(al, bl) {
        let d = sub4(al, bl);
        proof {
            lemma_mod_add_multiples_vanish((a@ - b@) as int, field_order() as int);
            lemma_small_mod((a@ - b@) as nat, field_order());
        }
        d
    } else {
        let s = add4(al, p);
        proof {
            assert(s.4 == 0);
        }
        let d = sub4((s.0, s.1, s.2, s.3), bl);
        proof {
            lemma_small_mod((a@ + field_order() - b@) as nat, field_order());
        }
        d
    };
    Fe { l0: red.0, l1: red.1, l2: red.2, l3: red.3 }
}

/// Picks between two field elements by a flag, evaluating neither branch
/// conditionally: the data-independent select primitive of the backend.
pub fn conditionally_select(flag: bool, a: &Fe, b: &Fe) -> (r: Fe)
    ensures
        r == if flag {
            *a
        } else {
            *b
        },
{
    if flag {
        *a
    } else {
        *b
    }
}

/// Swaps a pair of field elements when the flag is set: the conditional
/// swap primitive used to order Merkle siblings.
pub fn conditionally_reverse(a: Fe, b: Fe, flag: bool) -> (r: (Fe, Fe))
    ensures
        flag ==> r == (b, a),
        !flag ==> r == (a, b),
{
    if flag {
        (b, a)
    } else {
        (a, b)
    }
}

/// The product of the top limbs plus the product of the low limbs of two
/// canonical representations: the nonlinear term of the compression
/// function. Both summands are below `2^128`, so the sum needs no
/// reduction.
pub open spec fn fe_cross_spec(a: nat, b: nat) -> nat {
    ((a / 0x1000000000000000000000000000000000000000000000000nat)
        * (b / 0x1000000000000000000000000000000000000000000000000nat) + (
    a % 0x10000000000000000nat) * (b % 0x10000000000000000nat)) as nat
}

/// The cross term of two field values stays below the field order.
pub proof fn lemma_cross_bound(a: nat, b: nat)
    requires
        a < field_order(),
        b < field_order(),
    ensures
        fe_cross_spec(a, b) < field_order(),
{
    lemma_multiply_divide_lt(
        a as int,
        0x1000000000000000000000000000000000000000000000000int,
        0x4000000000000000int,
    );
    lemma_multiply_divide_lt(
        b as int,
        0x1000000000000000000000000000000000000000000000000int,
        0x4000000000000000int,
    );
    lemma_mod_division_less_than_divisor(a as int, 0x10000000000000000int);
    lemma_mod_division_less_than_divisor(b as int, 0x10000000000000000int);
    let qa = a / 0x1000000000000000000000000000000000000000000000000nat;
    let qb = b / 0x1000000000000000000000000000000000000000000000000nat;
    let ra = a % 0x10000000000000000nat;
    let rb = b % 0x10000000000000000nat;
    assert(qa * qb < 0x10000000000000000000000000000000int) by (nonlinear_arith)
        requires
            qa < 0x4000000000000000,
            qb < 0x4000000000000000,
    ;
    assert(ra * rb < 0x100000000000000000000000000000000int) by (nonlinear_arith)
        requires
            ra < 0x10000000000000000,
            rb < 0x10000000000000000,
    ;
}

/// Computes the cross term of two field elements.
pub fn fe_cross(a: &Fe, b: &Fe) -> (r: Fe)
    ensures
        r@ == fe_cross_spec(a@, b@),
{
    proof {
        use_type_invariant(*a);
        use_type_invariant(*b);
        lemma_fundamental_div_mod_converse_mod(
            a@ as int,
            0x10000000000000000,
            (a.l1 + a.l2 * 0x10000000000000000
                + a.l3 * 0x100000000000000000000000000000000) as int,
            a.l0 as int,
        );
        lemma_fundamental_div_mod_converse_mod(
            b@ as int,
            0x10000000000000000,
            (b.l1 + b.l2 * 0x10000000000000000
                + b.l3 * 0x100000000000000000000000000000000) as int,
            b.l0 as int,
        );
        lemma_fundamental_div_mod_converse_div(
            a@ as int,
            0x1000000000000000000000000000000000000000000000000int,
            a.l3 as int,
            (a.l0 + a.l1 * 0x10000000000000000
                + a.l2 * 0x100000000000000000000000000000000) as int,
        );
        lemma_fundamental_div_mod_converse_div(
            b@ as int,
            0x1000000000000000000000000000000000000000000000000int,
            b.l3 as int,
            (b.l0 + b.l1 * 0x10000000000000000
                + b.l2 * 0x100000000000000000000000000000000) as int,
        );
        assert(a.l3 <= 0x30644e72e131a029 && b.l3 <= 0x30644e72e131a029);
        assert((a.l3 as int) * (b.l3 as int)
            < 0x100000000000000000000000000000000int) by (nonlinear_arith)
            requires
                a.l3 <= 0x30644e72e131a029,
                b.l3 <= 0x30644e72e131a029,
        ;
        assert((a.l0 as int) * (b.l0 as int)
            < 0x100000000000000000000000000000000int) by (nonlinear_arith)
            requires
                a.l0 <= 0xffffffffffffffff,
                b.l0 <= 0xffffffffffffffff,
        ;
    }
    let top: u128 = a.l3 as u128 * b.l3 as u128;
    let low: u128 = a.l0 as u128 * b.l0 as u128;
    let (t0, t1) = split_wide(top);
    let (w0, w1) = split_wide(low);
    let t = Fe { l0: t0, l1: t1, l2: 0, l3: 0 };
    let w = Fe { l0: w0, l1: w1, l2: 0, l3: 0 };
    proof {
        lemma_small_mod((t@ + w@) as nat, field_order());
    }
    fe_add(&t, &w)
}

/// Splits a 128-bit value into its two limbs.
fn split_wide(t: u128) -> (r: (u64, u64))
    ensures
        t == r.0 + r.1 * 0x10000000000000000,
{
    proof {
        lemma_fundamental_div_mod(t as int, 0x10000000000000000);
        lemma_mod_division_less_than_divisor(t as int, 0x10000000000000000);
    }
    ((t % 0x10000000000000000) as u64, (t / 0x10000000000000000) as u64)
}

/// One limb rotation of a canonical representation, reduced back into the
/// field: the low limb moves to the top. Unlike the field operations this
/// mixing is not affine over the field, which keeps the compression
/// function position-sensitive across tree levels.
pub open spec fn fe_rotate_spec(x: nat) -> nat {
    (x / 0x10000000000000000 + (x % 0x10000000000000000)
        * 0x1000000000000000000000000000000000000000000000000) % field_order()
}

/// Rotates the limbs of a field element and reduces the result.
pub fn fe_rotate(x: &Fe) -> (r: Fe)
    ensures
        r@ == fe_rotate_spec(x@),
{
    proof {
        use_type_invariant(*x);
        lemma_fundamental_div_mod_converse_mod(
            x@ as int,
            0x10000000000000000,
            (x.l1 + x.l2 * 0x10000000000000000
                + x.l3 * 0x100000000000000000000000000000000) as int,
            x.l0 as int,
        );
        lemma_fundamental_div_mod_converse_div(
            x@ as int,
            0x10000000000000000,
            (x.l1 + x.l2 * 0x10000000000000000
                + x.l3 * 0x100000000000000000000000000000000) as int,
            x.l0 as int,
        );
    }
    let mut cur = (x.l1, x.l2, x.l3, x.l0);
    let ghost v = limbs_nat(cur.0, cur.1, cur.2, cur.3);
    let p = order_limbs();
    while ge4(cur, p)
        invariant
            limbs_nat(p.0, p.1, p.2, p.3) == field_order(),
            limbs_nat(cur.0, cur.1, cur.2, cur.3) % field_order() == v % field_order(),
        decreases limbs_nat(cur.0, cur.1, cur.2, cur.3),
    {
        let next = sub4(cur, p);
        proof {
            lemma_mod_sub_multiples_vanish(
                limbs_nat(cur.0, cur.1, cur.2, cur.3) as int,
                field_order() as int,
            );
        }
        cur = next;
    }
    proof {
        lemma_small_mod(limbs_nat(cur.0, cur.1, cur.2, cur.3), field_order());
    }
    Fe { l0: cur.0, l1: cur.1, l2: cur.2, l3: cur.3 }
}

/// Membership in the range `[0, 2^width)`, the semantic content of the
/// backend's range-table lookup.
pub fn fe_fits_bits(a: &Fe, width: usize) -> (r: bool)
    requires
        0 < width < 64,
    ensures
        r <==> a@ < pow2(width as nat),
{
    proof {
        lemma_u64_pow2_no_overflow(width as nat);
        lemma_u64_shl_is_mul(1u64, width as u64);
        lemma_pow2_strictly_increases(width as nat, 64);
        lemma2_to64();
    }
    a.l1 == 0 && a.l2 == 0 && a.l3 == 0 && a.l0 < (1u64 << (width as u64))
}

} // verus!

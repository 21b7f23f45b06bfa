//! The commitment engine: a fixed-depth Merkle tree over an array of
//! `ACC_NUM = 2^ACC_DEPTH` leaves.
//!
//! A slot is addressed by a location, a sequence of `ACC_DEPTH` bits; the
//! integer index is obtained by reading the bits as a little-endian number
//! (equivalently: reverse the sequence, then accumulate `r = 2*r + bit`).
//! The engine offers the cheap path-based root recomputation used by the
//! circuits, the full `O(N)` root over a whole leaf array, and the witness
//! helper that extracts a leaf's sibling path. The two central lemmas tie
//! the three together: a path extracted from an array recomputes exactly
//! the array's full root, and replacing the leaf of such a path recomputes
//! the full root of the updated array.

use vstd::prelude::*;
use vstd::arithmetic::power2::{
    pow2, lemma_pow2_unfold, lemma_pow2_pos, lemma2_to64, lemma_pow2_strictly_increases,
};
use crate::field::{Fe, views, conditionally_reverse};
use crate::hashing::{h2, hash_two_numbers};
use crate::{ACC_DEPTH, ACC_NUM};

verus! {

/// The slot index denoted by a location: its bits read as a little-endian
/// number.
pub open spec fn index_of(bits: Seq<bool>) -> nat
    decreases bits.len(),
{
    if bits.len() == 0 {
        0
    } else {
        (if bits[0] { 1nat } else { 0nat }) + 2 * index_of(bits.drop_first())
    }
}

/// The index of the sibling of the addressed node at the lowest level:
/// the index with its lowest bit flipped.
pub open spec fn sibling_index(bits: Seq<bool>) -> nat {
    (if bits[0] { 0nat } else { 1nat }) + 2 * index_of(bits.drop_first())
}

/// One level of pairwise hashing.
pub open spec fn hash_level(l: Seq<nat>) -> Seq<nat> {
    Seq::new(l.len() / 2, |i: int| h2(l[2 * i], l[2 * i + 1]))
}

/// `k` levels of pairwise hashing.
pub open spec fn levels(l: Seq<nat>, k: nat) -> Seq<nat>
    decreases k,
{
    if k == 0 {
        l
    } else {
        hash_level(levels(l, (k - 1) as nat))
    }
}

/// The root of a complete leaf array: pairwise hashing down to one value.
pub open spec fn full_root(l: Seq<nat>) -> nat
    decreases l.len(),
{
    if l.len() <= 1 {
        l[0]
    } else {
        full_root(hash_level(l))
    }
}

/// The sibling values needed to recompute the root for one location:
/// level by level, the hash of the subtree next to the addressed one.
pub open spec fn sibling_path(bits: Seq<bool>, l: Seq<nat>) -> Seq<nat>
    decreases bits.len(),
{
    if bits.len() == 0 {
        Seq::empty()
    } else {
        seq![l[sibling_index(bits) as int]] + sibling_path(bits.drop_first(), hash_level(l))
    }
}

/// One step of path recomputation: the location bit says on which side the
/// carried value sits before the pair is hashed.
pub open spec fn merge(bit: bool, cur: nat, sib: nat) -> nat {
    if bit {
        h2(sib, cur)
    } else {
        h2(cur, sib)
    }
}

/// Root recomputation from a leaf and its sibling path.
pub open spec fn root_from_path(bits: Seq<bool>, leaf: nat, sibs: Seq<nat>) -> nat
    decreases bits.len(),
{
    if bits.len() == 0 {
        leaf
    } else {
        root_from_path(bits.drop_first(), merge(bits[0], leaf, sibs[0]), sibs.drop_first())
    }
}

/// A location's index is below the number of slots it can address.
pub proof fn lemma_index_bound(bits: Seq<bool>)
    ensures
        index_of(bits) < pow2(bits.len()),
    decreases bits.len(),
{
    lemma2_to64();
    if bits.len() > 0 {
        lemma_index_bound(bits.drop_first());
        lemma_pow2_unfold(bits.len());
    }
}

/// Two distinct locations of the same depth address distinct slots.
pub proof fn lemma_index_injective(a: Seq<bool>, b: Seq<bool>)
    requires
        a.len() == b.len(),
        index_of(a) == index_of(b),
    ensures
        a == b,
    decreases a.len(),
{
    if a.len() > 0 {
        assert(a[0] == b[0]);
        lemma_index_injective(a.drop_first(), b.drop_first());
        assert forall|i: int| 0 <= i < a.len() implies a[i] == b[i] by {
            if i > 0 {
                assert(a[i] == a.drop_first()[i - 1]);
                assert(b[i] == b.drop_first()[i - 1]);
            }
        }
        assert(a =~= b);
    } else {
        assert(a =~= b);
    }
}

proof fn lemma_levels_front(l: Seq<nat>, k: nat)
    requires
        k >= 1,
    ensures
        levels(l, k) == levels(hash_level(l), (k - 1) as nat),
    decreases k,
{
    assert(levels(l, k) == hash_level(levels(l, (k - 1) as nat)));
    if k == 1 {
        assert(levels(l, 0nat) == l);
        assert(levels(hash_level(l), 0nat) == hash_level(l));
    } else {
        lemma_levels_front(l, (k - 1) as nat);
    }
}

/// After `k` of `d` levels, `2^(d-k)` nodes remain.
pub proof fn lemma_levels_len(l: Seq<nat>, d: nat, k: nat)
    requires
        l.len() == pow2(d),
        k <= d,
    ensures
        levels(l, k).len() == pow2((d - k) as nat),
    decreases k,
{
    if k > 0 {
        lemma_levels_len(l, d, (k - 1) as nat);
        lemma_pow2_unfold((d - k + 1) as nat);
    }
}

/// The full root is the single node left after all levels are hashed.
pub proof fn lemma_full_root_levels(l: Seq<nat>, d: nat)
    requires
        l.len() == pow2(d),
    ensures
        full_root(l) == levels(l, d)[0],
    decreases d,
{
    lemma2_to64();
    if d > 0 {
        lemma_pow2_unfold(d);
        lemma_pow2_pos((d - 1) as nat);
        lemma_full_root_levels(hash_level(l), (d - 1) as nat);
        lemma_levels_front(l, d);
    }
}

/// Root consistency: recomputing the root from the leaf at a location and
/// its extracted sibling path yields exactly the full root of the array,
/// for every leaf array and location.
pub proof fn lemma_root_consistency(bits: Seq<bool>, l: Seq<nat>)
    requires
        l.len() == pow2(bits.len()),
    ensures
        root_from_path(bits, l[index_of(bits) as int], sibling_path(bits, l))
            == full_root(l),
    decreases bits.len(),
{
    lemma_index_bound(bits);
    lemma2_to64();
    if bits.len() > 0 {
        let rest = bits.drop_first();
        let hl = hash_level(l);
        let j = index_of(rest) as int;
        lemma_pow2_unfold(bits.len());
        lemma_pow2_pos((bits.len() - 1) as nat);
        lemma_index_bound(rest);
        assert(hl[j] == h2(l[2 * j], l[2 * j + 1]));
        assert(merge(bits[0], l[index_of(bits) as int], l[sibling_index(bits) as int])
            == hl[j]);
        lemma_root_consistency(rest, hl);
        assert(sibling_path(bits, l).drop_first() =~= sibling_path(rest, hl));
        assert(root_from_path(bits, l[index_of(bits) as int], sibling_path(bits, l))
            == root_from_path(rest, hl[j], sibling_path(rest, hl)));
    }
}

/// Leaf update: the sibling path does not depend on the leaf at the
/// addressed location, and recomputing the root from a replacement leaf
/// and the old sibling path yields the full root of the updated array.
pub proof fn lemma_update_root(bits: Seq<bool>, l: Seq<nat>, v: nat)
    requires
        l.len() == pow2(bits.len()),
    ensures
        sibling_path(bits, l.update(index_of(bits) as int, v)) == sibling_path(bits, l),
        root_from_path(bits, v, sibling_path(bits, l))
            == full_root(l.update(index_of(bits) as int, v)),
    decreases bits.len(),
{
    lemma_index_bound(bits);
    lemma2_to64();
    let idx = index_of(bits) as int;
    let lu = l.update(idx, v);
    if bits.len() == 0 {
        assert(sibling_path(bits, lu) =~= sibling_path(bits, l));
    } else {
        let rest = bits.drop_first();
        let j = index_of(rest) as int;
        let hl = hash_level(l);
        let sib = sibling_index(bits) as int;
        let m = merge(bits[0], v, l[sib]);
        lemma_pow2_unfold(bits.len());
        lemma_pow2_pos((bits.len() - 1) as nat);
        lemma_index_bound(rest);
        assert(hash_level(lu) =~= hl.update(j, m)) by {
            assert forall|i: int| 0 <= i < l.len() / 2 implies
                hash_level(lu)[i] == hl.update(j, m)[i] by {
                assert(hash_level(lu)[i] == h2(lu[2 * i], lu[2 * i + 1]));
                if i != j {
                    assert(lu[2 * i] == l[2 * i]);
                    assert(lu[2 * i + 1] == l[2 * i + 1]);
                }
            }
        }
        lemma_update_root(rest, hl, m);
        assert(sibling_path(bits, lu) =~= sibling_path(bits, l)) by {
            assert(lu[sib] == l[sib]);
            assert(sibling_path(bits, lu)
                == seq![lu[sib]] + sibling_path(rest, hash_level(lu)));
            assert(sibling_path(rest, hash_level(lu)) == sibling_path(rest, hl));
        }
        assert(sibling_path(bits, l).drop_first() =~= sibling_path(rest, hl));
        assert(root_from_path(bits, v, sibling_path(bits, l))
            == root_from_path(rest, m, sibling_path(rest, hl)));
        assert(full_root(lu) == full_root(hash_level(lu)));
    }
}

/// Derives the slot index from a location's bits: reverse the sequence,
/// then accumulate `r = 2*r + bit`, which reads the bits little-endian.
pub fn get_num_from_boolean(bits: &Vec<bool>) -> (r: usize)
    requires
        bits@.len() <= 30,
    ensures
        r == index_of(bits@),
{
    let mut result: usize = 0;
    let mut i: usize = bits.len();
    while i > 0
        invariant
            i <= bits@.len() <= 30,
            result == index_of(bits@.skip(i as int)),
        decreases i,
    {
        i = i - 1;
        proof {
            lemma_index_bound(bits@.skip(i as int));
            lemma_index_bound(bits@.skip(i as int + 1));
            lemma_pow2_strictly_increases((bits@.len() - i) as nat, 31);
            lemma2_to64();
            assert(bits@.skip(i as int).drop_first() =~= bits@.skip(i as int + 1));
        }
        result = result * 2 + if bits[i] { 1 } else { 0 };
    }
    proof {
        assert(bits@.skip(0) =~= bits@);
    }
    result
}

/// Recomputes the root from a leaf-and-sibling path (`path[0]` is the
/// leaf): at each level the pair is ordered by the location bit, then
/// hashed. This is the circuits' only constrained root computation.
pub fn compute_commit(location: &Vec<bool>, path: &Vec<Fe>) -> (r: Fe)
    requires
        location@.len() == ACC_DEPTH,
        path@.len() == ACC_DEPTH + 1,
    ensures
        r@ == root_from_path(location@, path@[0]@, views(path@).drop_first()),
{
    let mut first = path[0];
    proof {
        assert(location@.skip(0) =~= location@);
        assert(views(path@).skip(1) =~= views(path@).drop_first());
    }
    let mut i: usize = 0;
    while i < ACC_DEPTH
        invariant
            0 <= i <= ACC_DEPTH,
            location@.len() == ACC_DEPTH,
            path@.len() == ACC_DEPTH + 1,
            root_from_path(location@.skip(i as int), first@, views(path@).skip(i as int + 1))
                == root_from_path(location@, path@[0]@, views(path@).drop_first()),
        decreases ACC_DEPTH - i,
    {
        let (f, s) = conditionally_reverse(first, path[i + 1], location[i]);
        let h = hash_two_numbers(&f, &s);
        proof {
            assert(location@.skip(i as int).drop_first() =~= location@.skip(i as int + 1));
            assert(views(path@).skip(i as int + 1).drop_first()
                =~= views(path@).skip(i as int + 2));
            assert(views(path@).skip(i as int + 1)[0] == path@[i as int + 1]@);
            assert(h@ == merge(location@[i as int], first@, path@[i as int + 1]@));
        }
        first = h;
        i = i + 1;
    }
    proof {
        assert(location@.skip(ACC_DEPTH as int).len() == 0);
    }
    first
}

/// Hashes a whole leaf array down to its root, with no path shortcut:
/// `O(N)` compression calls, used where an entire new array is committed.
pub fn hash_commit(leafs: &Vec<Fe>) -> (r: Fe)
    requires
        leafs@.len() == ACC_NUM,
    ensures
        r@ == full_root(views(leafs@)),
{
    let ghost lv = views(leafs@);
    let mut commits: Vec<Fe> = Vec::new();
    let mut i: usize = 0;
    while i < leafs.len()
        invariant
            i <= leafs@.len() == ACC_NUM,
            commits@.len() == i,
            forall|k: int| 0 <= k < i ==> commits@[k] == leafs@[k],
        decreases leafs@.len() - i,
    {
        commits.push(leafs[i]);
        i = i + 1;
    }
    proof {
        assert(views(commits@) =~= levels(lv, 0));
        lemma2_to64();
    }
    let mut level: usize = 0;
    proof {
        assert(levels(lv, 0nat) == lv);
    }
    while level < ACC_DEPTH
        invariant
            level <= ACC_DEPTH,
            lv.len() == ACC_NUM,
            views(commits@) == levels(lv, level as nat),
            commits@.len() == levels(lv, level as nat).len(),
        decreases ACC_DEPTH - level,
    {
        proof {
            lemma2_to64();
            lemma_levels_len(lv, ACC_DEPTH as nat, level as nat);
            lemma_pow2_pos((ACC_DEPTH - level) as nat);
            lemma_pow2_unfold((ACC_DEPTH - level) as nat);
            if level > 0 {
                lemma_pow2_strictly_increases((ACC_DEPTH - level) as nat, ACC_DEPTH as nat);
            }
        }
        let half = commits.len() / 2;
        let mut next: Vec<Fe> = Vec::new();
        let mut j: usize = 0;
        while j < half
            invariant
                half == commits@.len() / 2,
                commits@.len() <= ACC_NUM,
                j <= half,
                next@.len() == j,
                forall|k: int| 0 <= k < j ==> next@[k]@
                    == h2(commits@[2 * k]@, commits@[2 * k + 1]@),
            decreases half - j,
        {
            let h = hash_two_numbers(&commits[2 * j], &commits[2 * j + 1]);
            next.push(h);
            j = j + 1;
        }
        proof {
            assert(views(next@) =~= hash_level(views(commits@)));
        }
        commits = next;
        level = level + 1;
    }
    proof {
        lemma2_to64();
        lemma_levels_len(lv, ACC_DEPTH as nat, ACC_DEPTH as nat);
        lemma_full_root_levels(lv, ACC_DEPTH as nat);
        assert(views(commits@)[0] == commits@[0]@);
    }
    commits[0]
}

/// Witness helper: extracts, for one location, the leaf and the sibling
/// value at each level, while also folding the whole array down to its
/// root. It performs no constraint work; the path it returns is what the
/// constrained recomputation consumes.
pub fn generate_witness_path_and_commit(location: &Vec<bool>, leafs: &Vec<Fe>) -> (r: (
    Vec<Fe>,
    Fe,
))
    requires
        location@.len() == ACC_DEPTH,
        leafs@.len() == ACC_NUM,
    ensures
        r.0@.len() == ACC_DEPTH + 1,
        r.0@[0]@ == views(leafs@)[index_of(location@) as int],
        views(r.0@).drop_first() == sibling_path(location@, views(leafs@)),
        r.1@ == full_root(views(leafs@)),
{
    let ghost lv = views(leafs@);
    proof {
        lemma_index_bound(location@);
        lemma2_to64();
    }
    let idx = get_num_from_boolean(location);
    let mut path: Vec<Fe> = Vec::new();
    path.push(leafs[idx]);

    let mut commits: Vec<Fe> = Vec::new();
    let mut i: usize = 0;
    while i < leafs.len()
        invariant
            i <= leafs@.len() == ACC_NUM,
            commits@.len() == i,
            forall|k: int| 0 <= k < i ==> commits@[k] == leafs@[k],
        decreases leafs@.len() - i,
    {
        commits.push(leafs[i]);
        i = i + 1;
    }
    proof {
        assert(views(commits@) =~= levels(lv, 0));
        assert(levels(lv, 0nat) == lv);
        assert(location@.skip(0) =~= location@);
        assert(views(path@).drop_first() =~= Seq::<nat>::empty());
        assert(Seq::<nat>::empty() + sibling_path(location@, lv) =~= sibling_path(location@, lv));
        assert(views(path@)[0] == path@[0]@);
    }

    let mut cur = idx;
    let mut level: usize = 0;
    while level < ACC_DEPTH
        invariant
            level <= ACC_DEPTH,
            lv.len() == ACC_NUM,
            location@.len() == ACC_DEPTH,
            views(commits@) == levels(lv, level as nat),
            commits@.len() == levels(lv, level as nat).len(),
            cur == index_of(location@.skip(level as int)),
            path@.len() == level + 1,
            path@[0]@ == lv[index_of(location@) as int],
            views(path@).drop_first() + sibling_path(location@.skip(level as int), levels(lv, level as nat))
                == sibling_path(location@, lv),
        decreases ACC_DEPTH - level,
    {
        proof {
            lemma2_to64();
            lemma_levels_len(lv, ACC_DEPTH as nat, level as nat);
            lemma_pow2_pos((ACC_DEPTH - level) as nat);
            lemma_pow2_unfold((ACC_DEPTH - level) as nat);
            if level > 0 {
                lemma_pow2_strictly_increases((ACC_DEPTH - level) as nat, ACC_DEPTH as nat);
            }
            lemma_index_bound(location@.skip(level as int));
            lemma_index_bound(location@.skip(level as int + 1));
            assert(location@.skip(level as int).drop_first() =~= location@.skip(level as int + 1));
        }
        let sib = if location[level] { cur - 1 } else { cur + 1 };
        proof {
            assert(sib == sibling_index(location@.skip(level as int)));
        }
        let ghost old_path = path@;
        path.push(commits[sib]);
        proof {
            let bits = location@.skip(level as int);
            let bits1 = location@.skip(level as int + 1);
            let cl = levels(lv, level as nat);
            let cl1 = levels(lv, level as nat + 1);
            assert(cl1 == hash_level(cl));
            assert(sibling_path(bits, cl)
                == seq![cl[sibling_index(bits) as int]] + sibling_path(bits1, cl1));
            assert(views(path@).drop_first()
                =~= views(old_path).drop_first() + seq![cl[sib as int]]);
            assert(views(path@).drop_first() + sibling_path(bits1, cl1)
                =~= views(old_path).drop_first() + sibling_path(bits, cl));
        }

        let half = commits.len() / 2;
        let mut next: Vec<Fe> = Vec::new();
        let mut j: usize = 0;
        while j < half
            invariant
                half == commits@.len() / 2,
                commits@.len() <= ACC_NUM,
                j <= half,
                next@.len() == j,
                forall|k: int| 0 <= k < j ==> next@[k]@
                    == h2(commits@[2 * k]@, commits@[2 * k + 1]@),
            decreases half - j,
        {
            let h = hash_two_numbers(&commits[2 * j], &commits[2 * j + 1]);
            next.push(h);
            j = j + 1;
        }
        proof {
            assert(views(next@) =~= hash_level(views(commits@)));
        }
        commits = next;
        cur = cur / 2;
        level = level + 1;
    }
    proof {
        lemma_levels_len(lv, ACC_DEPTH as nat, ACC_DEPTH as nat);
        lemma2_to64();
        lemma_full_root_levels(lv, ACC_DEPTH as nat);
        assert(views(commits@)[0] == commits@[0]@);
        assert(location@.skip(ACC_DEPTH as int).len() == 0);
        assert(views(path@).drop_first() + Seq::<nat>::empty() =~= views(path@).drop_first());
    }
    let root = commits[0];
    (path, root)
}

} // verus!

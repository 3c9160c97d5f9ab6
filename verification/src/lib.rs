//! Vector addition chains.
//!
//! A vector addition chain encodes a procedure for computing a target vector
//! of unsigned-integer coefficients from the standard basis vectors using
//! binary additions alone.  The chain-construction strategies live in the
//! `bos_coster` (greedy with structural sharing), `bos_coster_many` (round
//! based) and `bos_coster_fast` (flat, non-deduplicating) modules.

use vstd::prelude::*;

pub mod scalar;
pub mod bos_coster;
pub mod bos_coster_many;
pub mod bos_coster_fast;

verus! {

/// A vector addition chain.
///
/// Encodes a procedure for computing a target vector
/// from basis vectors using binary additions.
///
/// Each computed term is labelled.
///
/// Labels start at 0 and go up.
#[derive(Debug)]
pub struct VecAddChain {
    /// The dimension of the target vector (and number of basis vectors).
    ///
    /// Basis vectors have labels 0 through `dimension - 1`, in order.
    pub dimension: usize,
    /// A list of additions to perform.
    ///
    /// Each addition contains two labels: the terms it adds.
    ///
    /// Summand of index `i` has label `dimension + i`.
    pub adds: Vec<(usize, usize)>,
}

/// Every label referenced by the addition at position `i` is strictly less
/// than `dimension + i`, the label that this addition defines.  The chain is
/// therefore acyclic and already topologically sorted.
pub open spec fn chain_wf(dim: nat, adds: Seq<(usize, usize)>) -> bool {
    forall|i: int|
        0 <= i < adds.len() ==> (#[trigger] adds[i]).0 < dim + i && adds[i].1 < dim + i
}

/// Coordinate `c` of the vector that label `l` denotes when the chain is
/// replayed over the standard basis: label `l < dim` is the basis vector
/// `e_l`, and label `dim + i` is the pointwise sum of the two vectors that
/// the addition at position `i` references.
pub open spec fn label_coord(dim: nat, adds: Seq<(usize, usize)>, l: int, c: int) -> nat
    decreases l,
{
    if 0 <= l < dim {
        if l == c {
            1nat
        } else {
            0nat
        }
    } else if dim <= l < dim + adds.len() {
        let a = adds[l - dim];
        if a.0 < l && a.1 < l {
            label_coord(dim, adds, a.0 as int, c) + label_coord(dim, adds, a.1 as int, c)
        } else {
            0nat
        }
    } else {
        0nat
    }
}

/// The value of a label depends only on the additions strictly before the one
/// that defines it, so extending the chain on the right never changes it.
pub proof fn lemma_label_coord_extend(
    dim: nat,
    adds: Seq<(usize, usize)>,
    more: Seq<(usize, usize)>,
    l: int,
    c: int,
)
    requires
        l < dim + adds.len(),
        adds.len() <= more.len(),
        adds == more.subrange(0, adds.len() as int),
    ensures
        label_coord(dim, more, l, c) == label_coord(dim, adds, l, c),
    decreases l,
{
    if 0 <= l < dim {
    } else if dim <= l < dim + adds.len() {
        assert(more[l - dim] == adds[l - dim]);
        let a = adds[l - dim];
        if a.0 < l && a.1 < l {
            lemma_label_coord_extend(dim, adds, more, a.0 as int, c);
            lemma_label_coord_extend(dim, adds, more, a.1 as int, c);
        }
    }
}

/// Whether some coordinate of the target is nonzero.
pub open spec fn has_nonzero(t: Seq<crate::scalar::Scalar>) -> bool {
    exists|i: int| 0 <= i < t.len() && (#[trigger] t[i])@ != 0
}

/// The target is the standard unit vector with a one at position `i`.
pub open spec fn unit_target_at(t: Seq<crate::scalar::Scalar>, i: int) -> bool {
    &&& 0 <= i < t.len()
    &&& t[i]@ == 1
    &&& forall|j: int| 0 <= j < t.len() && j != i ==> (#[trigger] t[j])@ == 0
}

/// The target is a unit vector whose one does not sit at the last position.
/// An addition chain cannot express such a target: its additions can only
/// denote sums of at least two basis vectors, and an empty chain replays to
/// the last basis vector.
pub open spec fn short_unit_target(t: Seq<crate::scalar::Scalar>) -> bool {
    exists|i: int| #[trigger] unit_target_at(t, i) && i + 1 < t.len()
}

/// Replaying the chain over the standard basis vectors ends at the target:
/// the chain is well formed and the vector of its last label is `t`.
pub open spec fn replays_to(chain: VecAddChain, t: Seq<crate::scalar::Scalar>) -> bool {
    &&& chain.dimension == t.len()
    &&& chain_wf(chain.dimension as nat, chain.adds@)
    &&& chain.dimension + chain.adds@.len() > 0
    &&& forall|c: int|
        0 <= c < t.len() ==> label_coord(
            chain.dimension as nat,
            chain.adds@,
            chain.dimension + chain.adds@.len() - 1,
            c,
        ) == (#[trigger] t[c])@
}

/// A prefix of a well-formed chain is well formed.
pub proof fn lemma_chain_wf_prefix(dim: nat, adds: Seq<(usize, usize)>, k: int)
    requires
        chain_wf(dim, adds),
        0 <= k <= adds.len(),
    ensures
        chain_wf(dim, adds.subrange(0, k)),
{
    assert forall|i: int| 0 <= i < k implies (#[trigger] adds.subrange(0, k)[i]).0 < dim + i
        && adds.subrange(0, k)[i].1 < dim + i by {
        assert(adds.subrange(0, k)[i] == adds[i]);
    }
}


/// Replays `chain` over the standard basis vectors and reports whether the
/// final computed vector equals `target`: true exactly when the chain is
/// well formed, matches the target's dimension, is nonempty as a schedule,
/// and its last label denotes `target`.
pub fn check_chain(chain: &VecAddChain, target: &Vec<crate::scalar::Scalar>) -> (r: bool)
    requires
        forall|i: int| 0 <= i < target@.len() ==> (#[trigger] target@[i]).wf(),
    ensures
        r == replays_to(*chain, target@),
{
    let n = chain.dimension;
    let ghost dimn = n as nat;
    if n != target.len() {
        return false;
    }
    let mut vecs: Vec<Vec<crate::scalar::Scalar>> = Vec::new();
    let mut i: usize = 0;
    while i < n
        invariant
            i <= n,
            dimn == n as nat,
            n == chain.dimension,
            vecs@.len() == i,
            forall|k: int, c: int|
                0 <= k < i && 0 <= c < n ==> (#[trigger] vecs@[k]@[c])@ == label_coord(
                    dimn,
                    chain.adds@,
                    k,
                    c,
                ) && vecs@[k]@[c].wf(),
            forall|k: int| 0 <= k < i ==> (#[trigger] vecs@[k])@.len() == n,
        decreases n - i,
    {
        let mut row: Vec<crate::scalar::Scalar> = Vec::new();
        let mut c: usize = 0;
        while c < n
            invariant
                c <= n,
                row@.len() == c,
                forall|c2: int|
                    0 <= c2 < c ==> (#[trigger] row@[c2])@ == (if c2 == i {
                        1nat
                    } else {
                        0nat
                    }) && row@[c2].wf(),
            decreases n - c,
        {
            if c == i {
                row.push(crate::scalar::Scalar::from_u64(1));
            } else {
                row.push(crate::scalar::Scalar::from_u64(0));
            }
            c = c + 1;
        }
        vecs.push(row);
        i = i + 1;
    }
    let m = chain.adds.len();
    let mut j: usize = 0;
    while j < m
        invariant
            j <= m,
            dimn == n as nat,
            n == chain.dimension,
            m == chain.adds@.len(),
            vecs@.len() == n + j,
            forall|i2: int|
                0 <= i2 < j ==> (#[trigger] chain.adds@[i2]).0 < n + i2 && chain.adds@[i2].1 < n
                    + i2,
            forall|k: int, c: int|
                0 <= k < n + j && 0 <= c < n ==> (#[trigger] vecs@[k]@[c])@ == label_coord(
                    dimn,
                    chain.adds@,
                    k,
                    c,
                ) && vecs@[k]@[c].wf(),
            forall|k: int| 0 <= k < n + j ==> (#[trigger] vecs@[k])@.len() == n,
        decreases m - j,
    {
        let a = chain.adds[j].0;
        let b = chain.adds[j].1;
        let lv = vecs.len();
        if a >= lv || b >= lv {
            proof {
                assert(!chain_wf(dimn, chain.adds@));
            }
            return false;
        }
        let mut row: Vec<crate::scalar::Scalar> = Vec::new();
        let mut c: usize = 0;
        while c < n
            invariant
                c <= n,
                dimn == n as nat,
                n == chain.dimension,
                m == chain.adds@.len(),
                j < m,
                vecs@.len() == n + j,
                a < n + j,
                b < n + j,
                row@.len() == c,
                forall|k: int, c2: int|
                    0 <= k < n + j && 0 <= c2 < n ==> (#[trigger] vecs@[k]@[c2])@ == label_coord(
                        dimn,
                        chain.adds@,
                        k,
                        c2,
                    ) && vecs@[k]@[c2].wf(),
                forall|k: int| 0 <= k < n + j ==> (#[trigger] vecs@[k])@.len() == n,
                forall|c2: int|
                    0 <= c2 < c ==> (#[trigger] row@[c2])@ == label_coord(
                        dimn,
                        chain.adds@,
                        a as int,
                        c2,
                    ) + label_coord(dimn, chain.adds@, b as int, c2) && row@[c2].wf(),
            decreases n - c,
        {
            let sum = vecs[a][c].add_scalar(&vecs[b][c]);
            row.push(sum);
            c = c + 1;
        }
        vecs.push(row);
        proof {
            assert(chain.adds@[j as int] == (a, b));
            assert forall|c2: int| 0 <= c2 < n implies (#[trigger] vecs@[n + j]@[c2])@
                == label_coord(dimn, chain.adds@, n + j, c2) by {
                assert(label_coord(dimn, chain.adds@, n + j, c2) == label_coord(
                    dimn,
                    chain.adds@,
                    a as int,
                    c2,
                ) + label_coord(dimn, chain.adds@, b as int, c2));
            }
        }
        j = j + 1;
    }
    proof {
        assert(chain_wf(dimn, chain.adds@));
    }
    let lv = vecs.len();
    if lv == 0 {
        return false;
    }
    let lastv = &vecs[lv - 1];
    let mut c: usize = 0;
    while c < n
        invariant
            c <= n,
            dimn == n as nat,
            n == chain.dimension,
            n == target@.len(),
            chain_wf(dimn, chain.adds@),
            forall|i2: int| 0 <= i2 < target@.len() ==> (#[trigger] target@[i2]).wf(),
            lastv@.len() == n,
            n + chain.adds@.len() >= 1,
            forall|c2: int|
                0 <= c2 < n ==> (#[trigger] lastv@[c2])@ == label_coord(
                    dimn,
                    chain.adds@,
                    n + chain.adds@.len() - 1,
                    c2,
                ) && lastv@[c2].wf(),
            forall|c2: int|
                0 <= c2 < c ==> (#[trigger] lastv@[c2])@ == target@[c2]@,
        decreases n - c,
    {
        match lastv[c].cmp_val(&target[c]) {
            crate::scalar::Cmp::Equal => {},
            _ => {
                proof {
                    assert(!replays_to(*chain, target@));
                }
                return false;
            },
        }
        c = c + 1;
    }
    proof {
        assert forall|c2: int| 0 <= c2 < target@.len() implies label_coord(
            dimn,
            chain.adds@,
            chain.dimension + chain.adds@.len() - 1,
            c2,
        ) == (#[trigger] target@[c2])@ by {
            assert(lastv@[c2]@ == target@[c2]@);
        }
        assert(replays_to(*chain, target@));
    }
    true
}

} // verus!

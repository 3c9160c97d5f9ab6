//! Round-based chain construction (the Batch strategy).
//!
//! Instead of a global priority queue, each round sorts the frontier by
//! descending coefficient, subtract-merges every adjacent pair (no halve
//! move), drops the zeroed coefficients from the tail, and repeats until one
//! entry remains.  This trades strict greediness for round-level structure,
//! at the price of more additions on average than the Single strategy.

use vstd::prelude::*;
use crate::scalar::Scalar;
use crate::{chain_wf, VecAddChain};
use crate::bos_coster::{
    entries_coord, entries_sum, entries_wf, entries_wf0, lemma_entries_coord_prefix,
    lemma_entries_coord_push, lemma_entries_coord_remove, lemma_entries_coord_update,
    lemma_entries_sum_element, lemma_entries_sum_push, lemma_entries_sum_remove,
    lemma_entries_sum_update, pop_max, seed, finish, ChainCmp, Entry, TermPool,
};

verus! {

/// The entry occurs in the sequence.
pub open spec fn from_entries(es: Seq<Entry>, e: Entry) -> bool {
    exists|j: int| 0 <= j < es.len() && e == #[trigger] es[j]
}

/// Entries in order of weakly decreasing coefficient value.
pub open spec fn sorted_desc(es: Seq<Entry>) -> bool {
    forall|k: int, l: int|
        #![trigger es[k], es[l]]
        0 <= k < l < es.len() ==> es[k].x@ >= es[l].x@
}

/// Sorts the frontier by descending coefficient (selection by repeated
/// maximum extraction): the result is a permutation of the input, so the
/// weighted sum is preserved exactly.
fn sort_desc<C: ChainCmp>(pool: &TermPool, entries: &mut Vec<Entry>)
    requires
        entries_wf0(pool.nodes@, old(entries)@),
    ensures
        final(entries)@.to_multiset() == old(entries)@.to_multiset(),
        final(entries)@.len() == old(entries)@.len(),
        entries_wf0(pool.nodes@, final(entries)@),
        sorted_desc(final(entries)@),
        forall|c: int|
            #[trigger] entries_coord(pool.nodes@, final(entries)@, c) == entries_coord(
                pool.nodes@,
                old(entries)@,
                c,
            ),
        entries_sum(final(entries)@) == entries_sum(old(entries)@),
        forall|k: int|
            0 <= k < final(entries)@.len() ==> from_entries(
                old(entries)@,
                #[trigger] final(entries)@[k],
            ),
{
    let ghost es0 = old(entries)@;
    let mut out: Vec<Entry> = Vec::new();
    proof {
        broadcast use vstd::seq_lib::group_to_multiset_ensures;

        assert(out@.to_multiset() =~= vstd::multiset::Multiset::<Entry>::empty());
        assert(out@.to_multiset().add(entries@.to_multiset()) =~= es0.to_multiset());
    }
    while entries.len() > 0
        invariant
            entries_wf0(pool.nodes@, entries@),
            entries_wf0(pool.nodes@, out@),
            out@.len() + entries@.len() == es0.len(),
            sorted_desc(out@),
            forall|k: int, j: int|
                #![trigger out@[k], entries@[j]]
                0 <= k < out@.len() && 0 <= j < entries@.len() ==> out@[k].x@ >= entries@[j].x@,
            forall|c: int|
                #[trigger] entries_coord(pool.nodes@, out@, c) + entries_coord(
                    pool.nodes@,
                    entries@,
                    c,
                ) == entries_coord(pool.nodes@, es0, c),
            entries_sum(out@) + entries_sum(entries@) == entries_sum(es0),
            out@.to_multiset().add(entries@.to_multiset()) == es0.to_multiset(),
            forall|k: int| 0 <= k < out@.len() ==> from_entries(es0, #[trigger] out@[k]),
            forall|k: int|
                0 <= k < entries@.len() ==> from_entries(es0, #[trigger] entries@[k]),
        decreases entries@.len(),
    {
        let ghost es_a = entries@;
        let ghost out_a = out@;
        let e = pop_max::<C>(pool, entries);
        out.push(e);
        proof {
            let m = choose|m: int|
                0 <= m < es_a.len() && e == es_a[m] && entries@ == es_a.remove(m);
            assert forall|c: int| #[trigger] entries_coord(pool.nodes@, out@, c) + entries_coord(
                pool.nodes@,
                entries@,
                c,
            ) == entries_coord(pool.nodes@, es0, c) by {
                lemma_entries_coord_remove(pool.nodes@, es_a, m, c);
                lemma_entries_coord_push(pool.nodes@, out_a, e, c);
            }
            lemma_entries_sum_remove(es_a, m);
            lemma_entries_sum_push(out_a, e);
            // the two halves together stay a permutation of the input
            broadcast use vstd::seq_lib::group_to_multiset_ensures;

            assert(out@.to_multiset() =~= out_a.to_multiset().insert(e));
            assert(entries@.to_multiset() =~= es_a.to_multiset().remove(e));
            assert(es_a.to_multiset().count(e) > 0);
            assert(out@.to_multiset().add(entries@.to_multiset()) =~= es0.to_multiset());
            assert forall|k: int| 0 <= k < entries@.len() implies (#[trigger] entries@[k]).x.wf()
                && entries@[k].g < pool.nodes@.len() by {
                assert(entries@[k] == es_a[if k < m {
                    k
                } else {
                    k + 1
                }]);
            }
            // the popped maximum keeps both orderings
            assert forall|k: int, j: int|
                #![trigger out@[k], entries@[j]]
                0 <= k < out@.len() && 0 <= j < entries@.len() implies out@[k].x@
                >= entries@[j].x@ by {
                if k < out_a.len() {
                    assert(out@[k] == out_a[k]);
                    assert(es_a[if j < m {
                        j
                    } else {
                        j + 1
                    }] == entries@[j]);
                } else {
                    assert(out@[k] == e);
                }
            }
            assert forall|k: int, l: int|
                #![trigger out@[k], out@[l]]
                0 <= k < l < out@.len() implies out@[k].x@ >= out@[l].x@ by {
                if l < out_a.len() {
                    assert(out@[k] == out_a[k] && out@[l] == out_a[l]);
                } else {
                    assert(out@[l] == e);
                    assert(out@[k] == out_a[k]);
                    assert(out_a[k].x@ >= es_a[m].x@);
                }
            }
            // every element still comes from the original frontier
            assert forall|k: int| 0 <= k < out@.len() implies from_entries(
                es0,
                #[trigger] out@[k],
            ) by {
                if k < out_a.len() {
                    assert(out@[k] == out_a[k]);
                    assert(from_entries(es0, out_a[k]));
                } else {
                    assert(out@[k] == es_a[m]);
                    assert(from_entries(es0, es_a[m]));
                }
            }
            assert forall|k: int| 0 <= k < entries@.len() implies from_entries(
                es0,
                #[trigger] entries@[k],
            ) by {
                let k2: int = if k < m {
                    k
                } else {
                    k + 1
                };
                assert(entries@[k] == es_a[k2]);
                assert(from_entries(es0, es_a[k2]));
            }
        }
    }
    proof {
        assert(entries_coord(pool.nodes@, entries@, 0) == 0);
        broadcast use vstd::seq_lib::group_to_multiset_ensures;

        assert(entries@.to_multiset() =~= vstd::multiset::Multiset::<Entry>::empty());
        assert(out@.to_multiset() =~= es0.to_multiset());
    }
    *entries = out;
    proof {
        assert forall|c: int| #[trigger] entries_coord(pool.nodes@, entries@, c) == entries_coord(
            pool.nodes@,
            es0,
            c,
        ) by {
        }
    }
}

/// Builds a vector addition chain for `target` with the Batch strategy.
/// Replaying the resulting chain over the standard basis reproduces
/// `target` whenever the target has a nonzero coordinate and is not a unit
/// vector below the last position; the all-zero target yields an empty
/// chain.
pub fn build_chain<C: ChainCmp>(target: Vec<Scalar>) -> (r: VecAddChain)
    requires
        forall|i: int| 0 <= i < target@.len() ==> (#[trigger] target@[i]).wf(),
    ensures
        r.dimension == target@.len(),
        chain_wf(r.dimension as nat, r.adds@),
        !crate::has_nonzero(target@) ==> r.adds@.len() == 0,
        crate::has_nonzero(target@) && !crate::short_unit_target(target@) ==> crate::replays_to(
            r,
            target@,
        ),
{
    let (pool0, entries0) = seed(&target);
    let mut pool = pool0;
    let mut entries = entries0;
    let n = pool.dimension;
    if entries.len() == 0 {
        return VecAddChain { dimension: n, adds: Vec::new() };
    }
    let ghost es_seeded = entries@;
    sort_desc::<C>(&pool, &mut entries);
    proof {
        assert forall|k: int| 0 <= k < entries@.len() implies (#[trigger] entries@[k]).x.wf()
            && entries@[k].x@ >= 1 && entries@[k].g < pool.nodes@.len() by {
            assert(from_entries(es_seeded, entries@[k]));
            let j = choose|j: int| 0 <= j < es_seeded.len() && entries@[k] == #[trigger] es_seeded[j];
            assert(es_seeded[j].x@ >= 1);
        }
    }
    while entries.len() > 1
        invariant
            n == target@.len(),
            pool.wf(),
            pool.dimension == n,
            pool.nodes@.len() >= n,
            entries_wf(pool.nodes@, entries@),
            entries@.len() >= 1,
            sorted_desc(entries@),
            forall|c: int|
                0 <= c < n ==> #[trigger] entries_coord(pool.nodes@, entries@, c) == target@[c]@,
        decreases entries_sum(entries@),
    {
        let ghost es_r = entries@;
        let ghost pool_r = pool.nodes@;
        let pairs = entries.len() / 2;
        let mut pi: usize = 0;
        while pi < pairs
            invariant
                n == target@.len(),
                pool.wf(),
                pool.dimension == n,
                pool_r.len() >= n,
                pool_r.len() <= pool.nodes@.len(),
                pool_r == pool.nodes@.subrange(0, pool_r.len() as int),
                entries@.len() == es_r.len(),
                pairs == es_r.len() / 2,
                2 * pairs <= es_r.len(),
                es_r.len() <= usize::MAX,
                es_r.len() >= 2,
                pi <= pairs,
                entries_wf0(pool.nodes@, entries@),
                entries_wf(pool_r, es_r),
                sorted_desc(es_r),
                forall|k: int| 2 * pi <= k < es_r.len() ==> #[trigger] entries@[k] == es_r[k],
                forall|j: int|
                    0 <= j < 2 * pi && j % 2 == 1 ==> (#[trigger] entries@[j]).x@ >= 1,
                forall|c: int|
                    0 <= c < n ==> #[trigger] entries_coord(pool.nodes@, entries@, c)
                        == target@[c]@,
                entries_sum(entries@) + pi <= entries_sum(es_r),
            decreases pairs - pi,
        {
            let i1 = 2 * pi;
            let g1 = entries[i1].g;
            let mut x1 = entries[i1].x.duplicate();
            let g2 = entries[i1 + 1].g;
            let x2 = entries[i1 + 1].x.duplicate();
            let ghost pool_a = pool.nodes@;
            let ghost es_a = entries@;
            proof {
                assert(es_a[i1 as int] == es_r[i1 as int]);
                assert(es_a[i1 + 1] == es_r[i1 + 1]);
                assert(es_r[i1 as int].x@ >= es_r[i1 + 1].x@);
                assert(x2@ >= 1);
            }
            x1.sub_noborrow(&x2);
            let ng = pool.add(g1, g2);
            entries[i1] = Entry { x: x1, g: g1 };
            entries[i1 + 1] = Entry { x: x2, g: ng };
            proof {
                let pool_b = pool.nodes@;
                let es_b = es_a.update(i1 as int, Entry { x: x1, g: g1 });
                assert(entries@ == es_b.update(i1 + 1, Entry { x: x2, g: ng }));
                let ghost x1v = es_a[i1 as int].x@;
                let ghost x2v = x2@;
                assert(pool_r.len() <= pool_b.len() && pool_r == pool_b.subrange(
                    0,
                    pool_r.len() as int,
                )) by {
                    crate::bos_coster::lemma_prefix_trans(pool_r, pool_a, pool_b);
                };
                assert forall|c: int| 0 <= c < n implies #[trigger] entries_coord(
                    pool.nodes@,
                    entries@,
                    c,
                ) == target@[c]@ by {
                    let t1 = crate::bos_coster::term_coord(pool_a, g1 as int, c);
                    let t2 = crate::bos_coster::term_coord(pool_a, g2 as int, c);
                    lemma_entries_coord_prefix(pool_a, pool_b, es_a, c);
                    lemma_entries_coord_update(pool_b, es_a, i1 as int, Entry { x: x1, g: g1 }, c);
                    lemma_entries_coord_update(pool_b, es_b, i1 + 1, Entry { x: x2, g: ng }, c);
                    assert(crate::bos_coster::term_coord(pool_b, ng as int, c) == t1 + t2);
                    assert(crate::bos_coster::term_coord(pool_b, g1 as int, c) == t1);
                    assert(crate::bos_coster::term_coord(pool_b, g2 as int, c) == t2);
                    assert(es_b[i1 + 1] == es_a[i1 + 1]);
                    assert((x1v - x2v) * t1 + x2v * (t1 + t2) == x1v * t1 + x2v * t2)
                        by (nonlinear_arith)
                        requires x2v <= x1v,
                    ;
                }
                lemma_entries_sum_update(es_a, i1 as int, Entry { x: x1, g: g1 });
                lemma_entries_sum_update(es_b, i1 + 1, Entry { x: x2, g: ng });
                assert(es_b[i1 + 1] == es_a[i1 + 1]);
                assert(entries_sum(entries@) + x2v == entries_sum(es_a));
            }
            pi = pi + 1;
        }
        proof {
            // the frontier still carries a nonzero coefficient
            assert(entries@[1].x@ >= 1);
            lemma_entries_sum_element(entries@, 1);
        }
        sort_desc::<C>(&pool, &mut entries);
        proof {
            assert(entries_sum(entries@) >= 1);
            assert(exists|k: int| 0 <= k < entries@.len() && (#[trigger] entries@[k]).x@ >= 1)
                by {
                lemma_sum_pos_has_nonzero(entries@);
            };
            let w = choose|k: int| 0 <= k < entries@.len() && (#[trigger] entries@[k]).x@ >= 1;
            assert(entries@[0].x@ >= entries@[w].x@);
        }
        loop
            invariant_except_break
                n == target@.len(),
                pool.wf(),
                pool.dimension == n,
                pool.nodes@.len() >= n,
                entries_wf0(pool.nodes@, entries@),
                sorted_desc(entries@),
                entries@.len() >= 1,
                entries@[0].x@ >= 1,
                forall|c: int|
                    0 <= c < n ==> #[trigger] entries_coord(pool.nodes@, entries@, c)
                        == target@[c]@,
                entries_sum(entries@) + 1 <= entries_sum(es_r),
            ensures
                n == target@.len(),
                pool.wf(),
                pool.dimension == n,
                pool.nodes@.len() >= n,
                entries_wf0(pool.nodes@, entries@),
                sorted_desc(entries@),
                entries@.len() >= 1,
                entries@.last().x@ >= 1,
                forall|c: int|
                    0 <= c < n ==> #[trigger] entries_coord(pool.nodes@, entries@, c)
                        == target@[c]@,
                entries_sum(entries@) + 1 <= entries_sum(es_r),
            decreases entries@.len(),
        {
            let le = entries.len();
            let z = entries[le - 1].x.is_zero();
            if !z {
                break;
            }
            proof {
                assert(le >= 2);
            }
            let ghost es_a = entries@;
            entries.pop();
            proof {
                assert(es_a =~= entries@.push(es_a.last()));
                assert forall|c: int| 0 <= c < n implies #[trigger] entries_coord(
                    pool.nodes@,
                    entries@,
                    c,
                ) == target@[c]@ by {
                    lemma_entries_coord_push(pool.nodes@, entries@, es_a.last(), c);
                    assert(es_a.last().x@ * crate::bos_coster::term_coord(
                        pool.nodes@,
                        es_a.last().g as int,
                        c,
                    ) == 0) by (nonlinear_arith)
                        requires es_a.last().x@ == 0,
                    ;
                }
                lemma_entries_sum_push(entries@, es_a.last());
            }
        }
        proof {
            // after dropping the zero tail, every coefficient is nonzero
            assert forall|k: int| 0 <= k < entries@.len() implies (#[trigger] entries@[k]).x.wf()
                && entries@[k].x@ >= 1 && entries@[k].g < pool.nodes@.len() by {
                assert(entries@[k].x@ >= entries@[entries@.len() - 1].x@);
            }
        }
    }
    finish(&mut pool, entries, Ghost(target@))
}

/// A positive coefficient sum means some coefficient is positive.
proof fn lemma_sum_pos_has_nonzero(es: Seq<Entry>)
    requires
        entries_sum(es) >= 1,
    ensures
        exists|k: int| 0 <= k < es.len() && (#[trigger] es[k]).x@ >= 1,
    decreases es.len(),
{
    if es.len() > 0 {
        if es[0].x@ >= 1 {
        } else {
            lemma_sum_pos_has_nonzero(es.subrange(1, es.len() as int));
            let k = choose|k: int|
                0 <= k < es.subrange(1, es.len() as int).len() && (#[trigger] es.subrange(
                    1,
                    es.len() as int,
                )[k]).x@ >= 1;
            assert(es[k + 1].x@ >= 1);
        }
    }
}

/// Pop shallower terms first.
pub struct UseShallow;

impl ChainCmp for UseShallow {
    open spec fn prefer(l_depth: nat, r_depth: nat) -> bool {
        l_depth < r_depth
    }

    proof fn prefer_transitive(a: nat, b: nat, c: nat) {
    }

    proof fn prefer_irreflexive(a: nat) {
    }

    fn prefer_exec(l_depth: usize, r_depth: usize) -> (r: bool) {
        l_depth < r_depth
    }
}

/// Pop deeper terms first.
pub struct UseDeep;

impl ChainCmp for UseDeep {
    open spec fn prefer(l_depth: nat, r_depth: nat) -> bool {
        l_depth > r_depth
    }

    proof fn prefer_transitive(a: nat, b: nat, c: nat) {
    }

    proof fn prefer_irreflexive(a: nat) {
    }

    fn prefer_exec(l_depth: usize, r_depth: usize) -> (r: bool) {
        l_depth > r_depth
    }
}

} // verus!

//! Streamlined chain construction without structural sharing (the Fast
//! strategy).
//!
//! Terms are plain integer labels into a flat, append-only addition list: no
//! interning table, no pool.  The greedy loop uses the same halve and
//! subtract-merge moves as the Single strategy; when an odd coefficient is
//! halved, the dropped unit is reinjected as an extra frontier entry.  After
//! the loop, double-and-add expansion appends directly to the list, and the
//! list is trimmed to the suffix the final label actually needs.

use vstd::prelude::*;
use crate::scalar::Scalar;
use crate::{chain_wf, label_coord, lemma_chain_wf_prefix, lemma_label_coord_extend, VecAddChain};
use crate::bos_coster::{entries_sum, lemma_entries_sum_push, lemma_entries_sum_remove};

// The frontier entry has the same shape as the pooled strategies'; here the
// `g` field holds a chain label rather than a pool index.
pub use crate::bos_coster::Entry;

verus! {

/// Coordinate `c` of the weighted frontier sum, with each entry's term given
/// by its label in the chain built so far.
pub open spec fn lentries_coord(
    dim: nat,
    adds: Seq<(usize, usize)>,
    es: Seq<Entry>,
    c: int,
) -> nat
    decreases es.len(),
{
    if es.len() == 0 {
        0nat
    } else {
        es[0].x@ * label_coord(dim, adds, es[0].g as int, c) + lentries_coord(
            dim,
            adds,
            es.subrange(1, es.len() as int),
            c,
        )
    }
}

/// Every entry holds a canonical nonzero coefficient and a label the chain
/// already defines.
pub open spec fn lentries_wf(dim: nat, adds: Seq<(usize, usize)>, es: Seq<Entry>) -> bool {
    forall|k: int|
        0 <= k < es.len() ==> {
            &&& (#[trigger] es[k]).x.wf()
            &&& es[k].x@ >= 1
            &&& es[k].g < dim + adds.len()
        }
}

pub proof fn lemma_lentries_coord_push(
    dim: nat,
    adds: Seq<(usize, usize)>,
    es: Seq<Entry>,
    e: Entry,
    c: int,
)
    ensures
        lentries_coord(dim, adds, es.push(e), c) == lentries_coord(dim, adds, es, c) + e.x@
            * label_coord(dim, adds, e.g as int, c),
    decreases es.len(),
{
    if es.len() == 0 {
        assert(es.push(e)[0] == e);
        assert(es.push(e).subrange(1, 1) =~= Seq::<Entry>::empty());
        assert(lentries_coord(dim, adds, es.push(e).subrange(1, es.push(e).len() as int), c)
            == 0);
    } else {
        assert(es.push(e)[0] == es[0]);
        assert(es.push(e).subrange(1, es.push(e).len() as int) =~= es.subrange(
            1,
            es.len() as int,
        ).push(e));
        lemma_lentries_coord_push(dim, adds, es.subrange(1, es.len() as int), e, c);
        assert(lentries_coord(dim, adds, es.push(e), c) == es.push(e)[0].x@ * label_coord(
            dim,
            adds,
            es.push(e)[0].g as int,
            c,
        ) + lentries_coord(dim, adds, es.push(e).subrange(1, es.push(e).len() as int), c));
        assert(lentries_coord(dim, adds, es, c) == es[0].x@ * label_coord(
            dim,
            adds,
            es[0].g as int,
            c,
        ) + lentries_coord(dim, adds, es.subrange(1, es.len() as int), c));
    }
}

pub proof fn lemma_lentries_coord_remove(
    dim: nat,
    adds: Seq<(usize, usize)>,
    es: Seq<Entry>,
    m: int,
    c: int,
)
    requires
        0 <= m < es.len(),
    ensures
        lentries_coord(dim, adds, es, c) == lentries_coord(dim, adds, es.remove(m), c) + es[m].x@
            * label_coord(dim, adds, es[m].g as int, c),
    decreases es.len(),
{
    if m == 0 {
        assert(es.remove(0) =~= es.subrange(1, es.len() as int));
    } else {
        let t = es.subrange(1, es.len() as int);
        assert(es.remove(m)[0] == es[0]);
        assert(es.remove(m).subrange(1, es.remove(m).len() as int) =~= t.remove(m - 1));
        lemma_lentries_coord_remove(dim, adds, t, m - 1, c);
        assert(t[m - 1] == es[m]);
    }
}

/// The weighted frontier sum never changes when the chain grows on the
/// right, since every entry's label was defined before the extension.
pub proof fn lemma_lentries_coord_extend(
    dim: nat,
    adds: Seq<(usize, usize)>,
    more: Seq<(usize, usize)>,
    es: Seq<Entry>,
    c: int,
)
    requires
        adds.len() <= more.len(),
        adds == more.subrange(0, adds.len() as int),
        forall|k: int| 0 <= k < es.len() ==> (#[trigger] es[k]).g < dim + adds.len(),
    ensures
        lentries_coord(dim, more, es, c) == lentries_coord(dim, adds, es, c),
    decreases es.len(),
{
    if es.len() > 0 {
        lemma_label_coord_extend(dim, adds, more, es[0].g as int, c);
        lemma_lentries_coord_extend(dim, adds, more, es.subrange(1, es.len() as int), c);
    }
}

/// The frontier order of the Fast strategy: larger coefficient first, larger
/// label second.
pub open spec fn lentry_gt(a: Entry, b: Entry) -> bool {
    a.x@ > b.x@ || (a.x@ == b.x@ && a.g > b.g)
}

/// Removes and returns a maximal entry under the frontier order.
fn pop_max_fast(entries: &mut Vec<Entry>) -> (e: Entry)
    requires
        old(entries)@.len() >= 1,
        forall|k: int| 0 <= k < old(entries)@.len() ==> (#[trigger] old(entries)@[k]).x.wf(),
    ensures
        exists|m: int|
            0 <= m < old(entries)@.len() && e == old(entries)@[m] && final(entries)@ == old(
                entries,
            )@.remove(m),
        forall|k: int|
            0 <= k < final(entries)@.len() ==> (#[trigger] final(entries)@[k]).x@ <= e.x@,
{
    let n = entries.len();
    let mut best: usize = 0;
    let mut j: usize = 1;
    while j < n
        invariant
            1 <= j <= n,
            best < j,
            n == entries@.len(),
            entries@ == old(entries)@,
            forall|k: int| 0 <= k < n ==> (#[trigger] entries@[k]).x.wf(),
            forall|k: int| 0 <= k < j ==> !lentry_gt(#[trigger] entries@[k], entries@[best as int]),
        decreases n - j,
    {
        let is_gt: bool = match entries[j].x.cmp_val(&entries[best].x) {
            crate::scalar::Cmp::Greater => true,
            crate::scalar::Cmp::Equal => entries[j].g > entries[best].g,
            crate::scalar::Cmp::Less => false,
        };
        proof {
            assert(is_gt == lentry_gt(entries@[j as int], entries@[best as int]));
        }
        if is_gt {
            proof {
                let s = entries@;
                let ob = best as int;
                assert forall|k: int| 0 <= k < j implies !lentry_gt(
                    #[trigger] s[k],
                    s[j as int],
                ) by {
                    if lentry_gt(s[k], s[j as int]) {
                        assert(lentry_gt(s[k], s[ob]));
                    }
                }
            }
            best = j;
        }
        j = j + 1;
    }
    let e = entries.remove(best);
    proof {
        let s = old(entries)@;
        assert forall|k: int| 0 <= k < entries@.len() implies (#[trigger] entries@[k]).x@ <= e.x@
            by {
            if k < best {
                assert(entries@[k] == s[k]);
            } else {
                assert(entries@[k] == s[k + 1]);
            }
        }
    }
    e
}

/// Appends the addition `(a, b)` to the chain and returns its label.  The
/// unit vector list `wit` keeps one element per defined label, witnessing
/// that the label arithmetic stays within the machine's integer range.
fn fast_add(
    adds: &mut Vec<(usize, usize)>,
    wit: &mut Vec<()>,
    dim: usize,
    a: usize,
    b: usize,
) -> (label: usize)
    requires
        old(wit)@.len() == dim + old(adds)@.len(),
        chain_wf(dim as nat, old(adds)@),
        a < dim + old(adds)@.len(),
        b < dim + old(adds)@.len(),
    ensures
        final(wit)@.len() == dim + final(adds)@.len(),
        final(adds)@.len() == old(adds)@.len() + 1,
        old(adds)@ == final(adds)@.subrange(0, old(adds)@.len() as int),
        chain_wf(dim as nat, final(adds)@),
        label == dim + old(adds)@.len(),
        forall|c: int|
            #[trigger] label_coord(dim as nat, final(adds)@, label as int, c) == label_coord(
                dim as nat,
                old(adds)@,
                a as int,
                c,
            ) + label_coord(dim as nat, old(adds)@, b as int, c),
        forall|l: int, c: int|
            l < dim + old(adds)@.len() ==> #[trigger] label_coord(dim as nat, final(adds)@, l, c)
                == label_coord(dim as nat, old(adds)@, l, c),
{
    let (lo, hi): (usize, usize) = if a < b {
        (a, b)
    } else {
        (b, a)
    };
    let ghost adds0 = adds@;
    adds.push((lo, hi));
    wit.push(());
    let lw = wit.len();
    let label = lw - 1;
    proof {
        assert(adds0 =~= adds@.subrange(0, adds0.len() as int));
        assert forall|i2: int| 0 <= i2 < adds@.len() implies (#[trigger] adds@[i2]).0 < dim + i2
            && adds@[i2].1 < dim + i2 by {
            if i2 < adds0.len() {
                assert(adds@[i2] == adds0[i2]);
            }
        }
        assert forall|l: int, c: int| l < dim + adds0.len() implies #[trigger] label_coord(
            dim as nat,
            adds@,
            l,
            c,
        ) == label_coord(dim as nat, adds0, l, c) by {
            lemma_label_coord_extend(dim as nat, adds0, adds@, l, c);
        }
        assert forall|c: int| #[trigger] label_coord(dim as nat, adds@, label as int, c)
            == label_coord(dim as nat, adds0, a as int, c) + label_coord(
            dim as nat,
            adds0,
            b as int,
            c,
        ) by {
            assert(adds@[label - dim] == (lo, hi));
            assert(label_coord(dim as nat, adds@, label as int, c) == label_coord(
                dim as nat,
                adds@,
                lo as int,
                c,
            ) + label_coord(dim as nat, adds@, hi as int, c));
            lemma_label_coord_extend(dim as nat, adds0, adds@, lo as int, c);
            lemma_label_coord_extend(dim as nat, adds0, adds@, hi as int, c);
        }
    }
    label
}

/// Builds a vector addition chain for `target` with the Fast strategy.
/// Replaying the resulting chain over the standard basis reproduces
/// `target` whenever the target has a nonzero coordinate and is not a unit
/// vector below the last position; the all-zero target yields an empty
/// chain.
pub fn build_chain(target: Vec<Scalar>) -> (r: VecAddChain)
    requires
        forall|i: int| 0 <= i < target@.len() ==> (#[trigger] target@[i]).wf(),
    ensures
        r.dimension == target@.len(),
        chain_wf(r.dimension as nat, r.adds@),
        !crate::has_nonzero(target@) ==> r.adds@.len() == 0,
        crate::has_nonzero(target@) && !crate::short_unit_target(target@) ==> crate::replays_to(
            r,
            target@,
        ),
{
    let n = target.len();
    let ghost dimn = n as nat;
    let mut adds: Vec<(usize, usize)> = Vec::new();
    let mut wit: Vec<()> = Vec::new();
    let mut entries: Vec<Entry> = Vec::new();
    let mut i: usize = 0;
    while i < n
        invariant
            i <= n,
            dimn == n as nat,
            n == target@.len(),
            forall|i2: int| 0 <= i2 < target@.len() ==> (#[trigger] target@[i2]).wf(),
            adds@.len() == 0,
            wit@.len() == i,
            lentries_wf(dimn, adds@, entries@),
            entries@.len() >= 1 ==> crate::has_nonzero(target@),
            forall|c: int|
                0 <= c < n ==> #[trigger] lentries_coord(dimn, adds@, entries@, c) == (if c < i {
                    target@[c]@
                } else {
                    0nat
                }),
        decreases n - i,
    {
        let ghost es0 = entries@;
        wit.push(());
        let zero = target[i].is_zero();
        if !zero {
            let x = target[i].duplicate();
            entries.push(Entry { x, g: i });
            proof {
                let e = entries@.last();
                assert(entries@ == es0.push(e));
                assert forall|c: int| 0 <= c < n implies #[trigger] lentries_coord(
                    dimn,
                    adds@,
                    entries@,
                    c,
                ) == (if c < i + 1 {
                    target@[c]@
                } else {
                    0nat
                }) by {
                    lemma_lentries_coord_push(dimn, adds@, es0, e, c);
                    assert(label_coord(dimn, adds@, i as int, c) == (if c == i {
                        1nat
                    } else {
                        0nat
                    }));
                    if c == i {
                        assert(e.x@ * 1nat == e.x@) by (nonlinear_arith);
                    } else {
                        assert(e.x@ * 0nat == 0) by (nonlinear_arith);
                    }
                }
            }
        } else {
            proof {
                assert forall|c: int| 0 <= c < n implies #[trigger] lentries_coord(
                    dimn,
                    adds@,
                    entries@,
                    c,
                ) == (if c < i + 1 {
                    target@[c]@
                } else {
                    0nat
                }) by {
                }
            }
        }
        i = i + 1;
    }
    if entries.len() == 0 {
        proof {
            if crate::has_nonzero(target@) {
                let w = choose|i2: int| 0 <= i2 < target@.len() && (#[trigger] target@[i2])@ != 0;
                assert(lentries_coord(dimn, adds@, entries@, w) == target@[w]@);
            }
        }
        return VecAddChain { dimension: n, adds: Vec::new() };
    }
    while entries.len() > 1
        invariant
            dimn == n as nat,
            n == target@.len(),
            wit@.len() == n + adds@.len(),
            chain_wf(dimn, adds@),
            lentries_wf(dimn, adds@, entries@),
            entries@.len() >= 1,
            forall|c: int|
                0 <= c < n ==> #[trigger] lentries_coord(dimn, adds@, entries@, c)
                    == target@[c]@,
        decreases entries_sum(entries@),
    {
        let ghost es_a = entries@;
        let ghost adds_a = adds@;
        let first = pop_max_fast(&mut entries);
        let ghost es_b = entries@;
        let second = pop_max_fast(&mut entries);
        let ghost es_c = entries@;
        proof {
            let m1 = choose|m: int|
                0 <= m < es_a.len() && first == es_a[m] && es_b == es_a.remove(m);
            let m2 = choose|m: int|
                0 <= m < es_b.len() && second == es_b[m] && es_c == es_b.remove(m);
            assert forall|k: int| 0 <= k < es_c.len() implies (#[trigger] es_c[k]).x.wf()
                && es_c[k].x@ >= 1 && es_c[k].g < n + adds_a.len() by {
                let k2: int = if k < m2 {
                    k
                } else {
                    k + 1
                };
                assert(es_c[k] == es_b[k2]);
                assert(es_b[k2] == es_a[if k2 < m1 {
                    k2
                } else {
                    k2 + 1
                }]);
            }
            assert(first.x.wf() && first.x@ >= 1 && first.g < n + adds_a.len());
            assert(second.x.wf() && second.x@ >= 1 && second.g < n + adds_a.len());
            assert(second.x@ <= first.x@);
            assert forall|c: int| 0 <= c < n implies #[trigger] lentries_coord(
                dimn,
                adds_a,
                es_c,
                c,
            ) + first.x@ * label_coord(dimn, adds_a, first.g as int, c) + second.x@ * label_coord(
                dimn,
                adds_a,
                second.g as int,
                c,
            ) == target@[c]@ by {
                lemma_lentries_coord_remove(dimn, adds_a, es_a, m1, c);
                lemma_lentries_coord_remove(dimn, adds_a, es_b, m2, c);
            }
            lemma_entries_sum_remove(es_a, m1);
            lemma_entries_sum_remove(es_b, m2);
        }
        let mut first = first;
        let mut half = first.x.duplicate();
        half.div2();
        let take_half = match half.cmp_val(&second.x) {
            crate::scalar::Cmp::Greater => true,
            _ => false,
        };
        if take_half {
            let ghost x1 = first.x@;
            let odd = first.x.is_odd();
            if odd {
                entries.push(Entry { x: Scalar::from_u64(1), g: first.g });
            }
            first.x.div2();
            let ng = fast_add(&mut adds, &mut wit, n, first.g, first.g);
            let ghost es_d = entries@;
            entries.push(second);
            entries.push(Entry { x: first.x, g: ng });
            proof {
                let es_new = entries@;
                let e_sec = es_new[es_new.len() - 2];
                let e_fst = es_new[es_new.len() - 1];
                assert(es_new == es_d.push(e_sec).push(e_fst));
                vstd::arithmetic::div_mod::lemma_fundamental_div_mod(x1 as int, 2);
                assert(x1 / 2 > second.x@);
                assert(x1 / 2 >= 1);
                assert forall|c: int| 0 <= c < n implies #[trigger] lentries_coord(
                    dimn,
                    adds@,
                    es_new,
                    c,
                ) == target@[c]@ by {
                    let t1 = label_coord(dimn, adds_a, first.g as int, c);
                    lemma_lentries_coord_extend(dimn, adds_a, adds@, es_c, c);
                    if odd {
                        assert(es_d == es_c.push(es_d.last()));
                        lemma_lentries_coord_push(dimn, adds_a, es_c, es_d.last(), c);
                        lemma_lentries_coord_extend(dimn, adds_a, adds@, es_d, c);
                        assert(lentries_coord(dimn, adds@, es_d, c) == lentries_coord(
                            dimn,
                            adds_a,
                            es_c,
                            c,
                        ) + 1nat * t1);
                        assert(1nat * t1 == t1) by (nonlinear_arith);
                    } else {
                        assert(es_d == es_c);
                    }
                    lemma_lentries_coord_push(dimn, adds@, es_d, e_sec, c);
                    lemma_lentries_coord_push(dimn, adds@, es_d.push(e_sec), e_fst, c);
                    assert(label_coord(dimn, adds@, second.g as int, c) == label_coord(
                        dimn,
                        adds_a,
                        second.g as int,
                        c,
                    ));
                    assert(label_coord(dimn, adds@, ng as int, c) == t1 + t1);
                    assert((x1 / 2) * (t1 + t1) == (x1 - x1 % 2) * t1) by (nonlinear_arith)
                        requires x1 == 2 * (x1 / 2) + x1 % 2,
                    ;
                    if odd {
                        assert((x1 - x1 % 2) * t1 == x1 * t1 - t1) by (nonlinear_arith)
                            requires x1 >= 1, x1 % 2 == 1,
                        ;
                    } else {
                        assert((x1 - x1 % 2) * t1 == x1 * t1) by (nonlinear_arith)
                            requires x1 % 2 == 0,
                        ;
                    }
                }
                lemma_entries_sum_push(es_d, e_sec);
                lemma_entries_sum_push(es_d.push(e_sec), e_fst);
                if odd {
                    assert(es_d == es_c.push(es_d.last()));
                    lemma_entries_sum_push(es_c, es_d.last());
                }
                assert(entries_sum(es_new) < entries_sum(es_a));
            }
        } else {
            let ghost x1 = first.x@;
            first.x.sub_noborrow(&second.x);
            let ng = fast_add(&mut adds, &mut wit, n, first.g, second.g);
            let ghost es_d = entries@;
            entries.push(Entry { x: second.x, g: ng });
            let keep = !first.x.is_zero();
            if keep {
                entries.push(first);
            }
            proof {
                let es_new = entries@;
                assert(es_d == es_c);
                assert forall|c: int| 0 <= c < n implies #[trigger] lentries_coord(
                    dimn,
                    adds@,
                    es_new,
                    c,
                ) == target@[c]@ by {
                    let t1 = label_coord(dimn, adds_a, first.g as int, c);
                    let t2 = label_coord(dimn, adds_a, second.g as int, c);
                    lemma_lentries_coord_extend(dimn, adds_a, adds@, es_c, c);
                    let em = es_new[es_c.len() as int];
                    lemma_lentries_coord_push(dimn, adds@, es_c, em, c);
                    assert(label_coord(dimn, adds@, ng as int, c) == t1 + t2);
                    if keep {
                        let ef = es_new.last();
                        assert(es_new == es_c.push(em).push(ef));
                        lemma_lentries_coord_push(dimn, adds@, es_c.push(em), ef, c);
                        assert(label_coord(dimn, adds@, ef.g as int, c) == t1);
                        assert((x1 - second.x@) * t1 + second.x@ * (t1 + t2) == x1 * t1
                            + second.x@ * t2) by (nonlinear_arith)
                            requires second.x@ <= x1,
                        ;
                    } else {
                        assert(es_new == es_c.push(em));
                        assert(x1 == second.x@);
                        assert(second.x@ * (t1 + t2) == x1 * t1 + second.x@ * t2)
                            by (nonlinear_arith)
                            requires x1 == second.x@,
                        ;
                    }
                }
                let em = es_new[es_c.len() as int];
                lemma_entries_sum_push(es_c, em);
                if keep {
                    lemma_entries_sum_push(es_c.push(em), es_new.last());
                }
                assert(entries_sum(es_new) < entries_sum(es_a));
            }
        }
    }
    let ghost es_pre = entries@;
    let e_opt = entries.pop();
    let e = e_opt.unwrap();
    proof {
        assert(es_pre =~= entries@.push(e));
        assert forall|c: int| 0 <= c < n implies e.x@ * #[trigger] label_coord(
            dimn,
            adds@,
            e.g as int,
            c,
        ) == target@[c]@ by {
            lemma_lentries_coord_push(dimn, adds@, entries@, e, c);
            assert(lentries_coord(dimn, adds@, entries@, c) == 0);
            assert(lentries_coord(dimn, adds@, es_pre, c) == target@[c]@);
        }
    }
    // double-and-add expansion of the final entry, appending to the list
    let ghost adds_e = adds@;
    let mut scalar = e.x;
    let mut p2 = e.g;
    let mut acc: Option<usize> = None;
    loop
        invariant_except_break
            dimn == n as nat,
            n == target@.len(),
            wit@.len() == n + adds@.len(),
            chain_wf(dimn, adds@),
            scalar.wf(),
            p2 < n + adds@.len(),
            acc matches Option::Some(a) ==> a < n + adds@.len(),
            acc is None ==> scalar@ >= 1,
            forall|c: int|
                0 <= c < n ==> #[trigger] lacc_coord(dimn, adds@, acc, c) + scalar@ * label_coord(
                    dimn,
                    adds@,
                    p2 as int,
                    c,
                ) == target@[c]@,
        ensures
            dimn == n as nat,
            n == target@.len(),
            wit@.len() == n + adds@.len(),
            chain_wf(dimn, adds@),
            acc matches Option::Some(a) && a < n + adds@.len() && forall|c: int|
                0 <= c < n ==> #[trigger] label_coord(dimn, adds@, a as int, c) == target@[c]@,
        decreases scalar@,
    {
        if scalar.is_zero() {
            proof {
                if acc is None {
                    assert(false);
                }
                let a = acc->Some_0;
                assert forall|c: int| 0 <= c < n implies #[trigger] label_coord(
                    dimn,
                    adds@,
                    a as int,
                    c,
                ) == target@[c]@ by {
                    assert(lacc_coord(dimn, adds@, acc, c) + scalar@ * label_coord(
                        dimn,
                        adds@,
                        p2 as int,
                        c,
                    ) == target@[c]@);
                    assert(0nat * label_coord(dimn, adds@, p2 as int, c) == 0)
                        by (nonlinear_arith);
                }
            }
            break;
        }
        let ghost s0 = scalar@;
        let ghost adds_x = adds@;
        let ghost acc_x = acc;
        let ghost p2_x = p2;
        let odd = scalar.is_odd();
        if odd {
            let new_acc = match acc {
                Some(a) => fast_add(&mut adds, &mut wit, n, a, p2),
                None => p2,
            };
            acc = Some(new_acc);
        }
        let ghost adds_y = adds@;
        let ghost acc_y = acc;
        proof {
            assert(adds_x.len() <= adds_y.len() && adds_x == adds_y.subrange(
                0,
                adds_x.len() as int,
            )) by {
                if adds_x == adds_y {
                    assert(adds_x =~= adds_y.subrange(0, adds_x.len() as int));
                }
            };
            assert forall|c: int| 0 <= c < n implies #[trigger] lacc_coord(dimn, adds_y, acc_y, c)
                == lacc_coord(dimn, adds_x, acc_x, c) + (if s0 % 2 == 1 {
                label_coord(dimn, adds_x, p2_x as int, c)
            } else {
                0nat
            }) by {
                if odd {
                    match acc_x {
                        Option::Some(a) => {},
                        Option::None => {},
                    }
                } else {
                    match acc_x {
                        Option::Some(a) => {
                            lemma_label_coord_extend(dimn, adds_x, adds_y, a as int, c);
                        },
                        Option::None => {},
                    }
                }
            }
        }
        let p2_new = fast_add(&mut adds, &mut wit, n, p2, p2);
        p2 = p2_new;
        scalar.div2();
        proof {
            let adds_z = adds@;
            vstd::arithmetic::div_mod::lemma_fundamental_div_mod(s0 as int, 2);
            assert forall|c: int| 0 <= c < n implies #[trigger] lacc_coord(dimn, adds_z, acc, c)
                + scalar@ * label_coord(dimn, adds_z, p2 as int, c) == target@[c]@ by {
                let t = label_coord(dimn, adds_x, p2_x as int, c);
                assert(label_coord(dimn, adds_y, p2_x as int, c) == t) by {
                    lemma_label_coord_extend(dimn, adds_x, adds_y, p2_x as int, c);
                }
                assert(label_coord(dimn, adds_z, p2_new as int, c) == t + t);
                assert(lacc_coord(dimn, adds_z, acc, c) == lacc_coord(dimn, adds_y, acc_y, c))
                    by {
                    match acc_y {
                        Option::Some(a) => {},
                        Option::None => {},
                    }
                }
                assert((s0 / 2) * (t + t) == (s0 - s0 % 2) * t) by (nonlinear_arith)
                    requires s0 == 2 * (s0 / 2) + s0 % 2,
                ;
                assert(lacc_coord(dimn, adds_x, acc_x, c) + s0 * t == target@[c]@);
                if s0 % 2 == 1 {
                    assert((s0 - s0 % 2) * t == s0 * t - t) by (nonlinear_arith)
                        requires s0 >= 1, s0 % 2 == 1,
                    ;
                } else {
                    assert((s0 - s0 % 2) * t == s0 * t) by (nonlinear_arith)
                        requires s0 % 2 == 0,
                    ;
                }
            }
        }
    }
    let root = match acc {
        Some(a) => a,
        None => 0,
    };
    proof {
        assert(acc is Some);
    }
    // trim the speculative suffix that the final label never uses
    if root < n {
        let ghost adds_done = adds@;
        adds.clear();
        proof {
            assert(crate::unit_target_at(target@, root as int)) by {
                assert(label_coord(dimn, adds_done, root as int, root as int) == 1);
                assert forall|j: int| 0 <= j < target@.len() && j != root implies (
                #[trigger] target@[j])@ == 0 by {
                    assert(label_coord(dimn, adds_done, root as int, j) == target@[j]@);
                }
            };
            if root + 1 < n {
                assert(crate::short_unit_target(target@));
            } else {
                assert(crate::has_nonzero(target@));
                if !crate::short_unit_target(target@) {
                    assert forall|c: int| 0 <= c < target@.len() implies label_coord(
                        dimn,
                        adds@,
                        n + adds@.len() - 1,
                        c,
                    ) == (#[trigger] target@[c])@ by {
                        assert(label_coord(dimn, adds_done, root as int, c) == target@[c]@);
                    }
                    assert(crate::replays_to(VecAddChain { dimension: n, adds }, target@));
                }
            }
        }
        VecAddChain { dimension: n, adds }
    } else {
        let ghost adds_full = adds@;
        let keep = root - n + 1;
        adds.truncate(keep);
        proof {
            assert(adds@ == adds_full.subrange(0, keep as int));
            lemma_chain_wf_prefix(dimn, adds_full, keep as int);
            assert forall|c: int| 0 <= c < target@.len() implies label_coord(
                dimn,
                adds@,
                n + adds@.len() - 1,
                c,
            ) == (#[trigger] target@[c])@ by {
                lemma_label_coord_extend(dimn, adds@, adds_full, root as int, c);
            }
            assert(crate::replays_to(VecAddChain { dimension: n, adds }, target@));
        }
        VecAddChain { dimension: n, adds }
    }
}

/// Coordinate `c` of the optional accumulator during double-and-add.
pub open spec fn lacc_coord(
    dim: nat,
    adds: Seq<(usize, usize)>,
    acc: Option<usize>,
    c: int,
) -> nat {
    match acc {
        Option::Some(a) => label_coord(dim, adds, a as int, c),
        Option::None => 0nat,
    }
}

} // verus!

//! Greedy chain construction with structural sharing (the Single strategy).
//!
//! A term pool interns immutable DAG nodes — `Basis(i)` leaves and
//! `Add(l, r)` internal nodes — in a grow-only arena indexed by `usize`,
//! deduplicating structurally identical nodes.  The greedy loop repeatedly
//! collapses the two largest frontier entries until one remains, the
//! multiplier expands the final `(scalar, term)` pair by double-and-add, and
//! the linearizer walks the shared structure and emits a deduplicated,
//! topologically ordered `VecAddChain`.
//!
//! Every step preserves the weighted-sum invariant: over all live frontier
//! entries, the sum of `coefficient * term-vector` equals the target.  In
//! particular, halving an odd coefficient while doubling its term would
//! lose one copy of the term, so the halve move first reinjects that unit
//! as an extra frontier entry.

use vstd::prelude::*;
use vstd::arithmetic::div_mod::lemma_fundamental_div_mod;
use crate::scalar::Scalar;
use crate::{chain_wf, label_coord, lemma_label_coord_extend, VecAddChain};

verus! {

/// The shape of one pool node: a basis leaf or the sum of two earlier nodes,
/// referenced by pool index.
#[derive(Clone, Copy, PartialEq, Eq, Structural)]
pub enum Form {
    Add(usize, usize),
    Basis(usize),
}

/// One pool node: its shape together with its structural depth (a basis leaf
/// has depth 1, an addition is one deeper than its deeper child, saturating
/// at the machine limit).
#[derive(Clone, Copy, PartialEq, Eq, Structural)]
pub struct ChainData {
    pub depth: usize,
    pub form: Form,
}

/// Depth of a new node on top of the deeper of its children.
pub open spec fn depth_above(dl: nat, dr: nat) -> nat {
    let m = if dl >= dr {
        dl
    } else {
        dr
    };
    if m < usize::MAX {
        m + 1
    } else {
        m
    }
}

/// The canonical shape of the interned sum of the nodes at `a` and `b`:
/// children ordered by index, so both argument orders intern to one node.
pub open spec fn add_form(a: usize, b: usize) -> Form {
    if a < b {
        Form::Add(a, b)
    } else {
        Form::Add(b, a)
    }
}

/// Well-formedness of the node at index `i`: a basis leaf sits at its own
/// index below the dimension; an addition sits at or above the dimension and
/// references two strictly earlier nodes.
pub open spec fn pool_node_wf(nodes: Seq<ChainData>, dim: nat, i: int) -> bool {
    match nodes[i].form {
        Form::Basis(b) => b == i && i < dim && nodes[i].depth == 1,
        Form::Add(l, r) => l < i && r < i && dim <= i && nodes[i].depth == depth_above(
            nodes[l as int].depth as nat,
            nodes[r as int].depth as nat,
        ),
    }
}

pub open spec fn pool_wf(nodes: Seq<ChainData>, dim: nat) -> bool {
    &&& nodes.len() >= dim
    &&& forall|i: int| 0 <= i < nodes.len() ==> #[trigger] pool_node_wf(nodes, dim, i)
    &&& forall|i1: int, i2: int|
        #![trigger nodes[i1], nodes[i2]]
        0 <= i1 < i2 < nodes.len() ==> nodes[i1].form != nodes[i2].form
}

/// Coordinate `c` of the vector value of the node at index `i`: a basis leaf
/// is a standard unit vector, an addition is the pointwise sum of its
/// children.
pub open spec fn term_coord(nodes: Seq<ChainData>, i: int, c: int) -> nat
    decreases i,
{
    if 0 <= i < nodes.len() {
        match nodes[i].form {
            Form::Basis(b) => if c == b {
                1nat
            } else {
                0nat
            },
            Form::Add(l, r) => if l < i && r < i {
                term_coord(nodes, l as int, c) + term_coord(nodes, r as int, c)
            } else {
                0nat
            },
        }
    } else {
        0nat
    }
}

/// The depth recorded for the node at index `i`.
pub open spec fn node_depth(nodes: Seq<ChainData>, i: int) -> nat {
    if 0 <= i < nodes.len() {
        nodes[i].depth as nat
    } else {
        0nat
    }
}

/// A node's value never changes when the pool grows on the right.
pub proof fn lemma_term_coord_prefix(nodes: Seq<ChainData>, more: Seq<ChainData>, i: int, c: int)
    requires
        nodes.len() <= more.len(),
        nodes == more.subrange(0, nodes.len() as int),
        i < nodes.len(),
    ensures
        term_coord(more, i, c) == term_coord(nodes, i, c),
    decreases i,
{
    if 0 <= i {
        assert(more[i] == nodes[i]);
        match nodes[i].form {
            Form::Basis(b) => {},
            Form::Add(l, r) => {
                if l < i && r < i {
                    lemma_term_coord_prefix(nodes, more, l as int, c);
                    lemma_term_coord_prefix(nodes, more, r as int, c);
                }
            },
        }
    }
}

/// One frontier entry: a remaining coefficient together with the pool index
/// of the term it weights.
pub struct Entry {
    pub x: Scalar,
    pub g: usize,
}

/// Every entry holds a canonical nonzero coefficient and a live pool index.
pub open spec fn entries_wf(nodes: Seq<ChainData>, es: Seq<Entry>) -> bool {
    forall|k: int|
        0 <= k < es.len() ==> {
            &&& (#[trigger] es[k]).x.wf()
            &&& es[k].x@ >= 1
            &&& es[k].g < nodes.len()
        }
}

/// Like `entries_wf`, but a coefficient may be zero (entries are in this
/// state in the middle of a round of the Batch strategy).
pub open spec fn entries_wf0(nodes: Seq<ChainData>, es: Seq<Entry>) -> bool {
    forall|k: int|
        0 <= k < es.len() ==> {
            &&& (#[trigger] es[k]).x.wf()
            &&& es[k].g < nodes.len()
        }
}

/// Coordinate `c` of the weighted sum of all frontier entries.
pub open spec fn entries_coord(nodes: Seq<ChainData>, es: Seq<Entry>, c: int) -> nat
    decreases es.len(),
{
    if es.len() == 0 {
        0nat
    } else {
        es[0].x@ * term_coord(nodes, es[0].g as int, c) + entries_coord(
            nodes,
            es.subrange(1, es.len() as int),
            c,
        )
    }
}

/// Sum of the coefficient values of all frontier entries; the strictly
/// decreasing measure of every reduction loop.
pub open spec fn entries_sum(es: Seq<Entry>) -> nat
    decreases es.len(),
{
    if es.len() == 0 {
        0nat
    } else {
        es[0].x@ + entries_sum(es.subrange(1, es.len() as int))
    }
}

pub proof fn lemma_entries_coord_push(nodes: Seq<ChainData>, es: Seq<Entry>, e: Entry, c: int)
    ensures
        entries_coord(nodes, es.push(e), c) == entries_coord(nodes, es, c) + e.x@ * term_coord(
            nodes,
            e.g as int,
            c,
        ),
    decreases es.len(),
{
    if es.len() == 0 {
        assert(es.push(e)[0] == e);
        assert(es.push(e).subrange(1, 1) =~= Seq::<Entry>::empty());
        assert(entries_coord(nodes, es.push(e).subrange(1, es.push(e).len() as int), c) == 0);
    } else {
        assert(es.push(e)[0] == es[0]);
        assert(es.push(e).subrange(1, es.push(e).len() as int) =~= es.subrange(
            1,
            es.len() as int,
        ).push(e));
        lemma_entries_coord_push(nodes, es.subrange(1, es.len() as int), e, c);
        assert(entries_coord(nodes, es.push(e), c) == es.push(e)[0].x@ * term_coord(
            nodes,
            es.push(e)[0].g as int,
            c,
        ) + entries_coord(nodes, es.push(e).subrange(1, es.push(e).len() as int), c));
        assert(entries_coord(nodes, es, c) == es[0].x@ * term_coord(nodes, es[0].g as int, c)
            + entries_coord(nodes, es.subrange(1, es.len() as int), c));
    }
}

pub proof fn lemma_entries_sum_push(es: Seq<Entry>, e: Entry)
    ensures
        entries_sum(es.push(e)) == entries_sum(es) + e.x@,
    decreases es.len(),
{
    if es.len() == 0 {
        assert(es.push(e)[0] == e);
        assert(es.push(e).subrange(1, 1) =~= Seq::<Entry>::empty());
        assert(entries_sum(es.push(e).subrange(1, es.push(e).len() as int)) == 0);
    } else {
        assert(es.push(e)[0] == es[0]);
        assert(es.push(e).subrange(1, es.push(e).len() as int) =~= es.subrange(
            1,
            es.len() as int,
        ).push(e));
        lemma_entries_sum_push(es.subrange(1, es.len() as int), e);
        assert(entries_sum(es.push(e)) == es.push(e)[0].x@ + entries_sum(
            es.push(e).subrange(1, es.push(e).len() as int),
        ));
        assert(entries_sum(es) == es[0].x@ + entries_sum(es.subrange(1, es.len() as int)));
    }
}

pub proof fn lemma_entries_coord_remove(nodes: Seq<ChainData>, es: Seq<Entry>, m: int, c: int)
    requires
        0 <= m < es.len(),
    ensures
        entries_coord(nodes, es, c) == entries_coord(nodes, es.remove(m), c) + es[m].x@
            * term_coord(nodes, es[m].g as int, c),
    decreases es.len(),
{
    if m == 0 {
        assert(es.remove(0) =~= es.subrange(1, es.len() as int));
    } else {
        let t = es.subrange(1, es.len() as int);
        assert(es.remove(m)[0] == es[0]);
        assert(es.remove(m).subrange(1, es.remove(m).len() as int) =~= t.remove(m - 1));
        lemma_entries_coord_remove(nodes, t, m - 1, c);
        assert(t[m - 1] == es[m]);
    }
}

pub proof fn lemma_entries_sum_remove(es: Seq<Entry>, m: int)
    requires
        0 <= m < es.len(),
    ensures
        entries_sum(es) == entries_sum(es.remove(m)) + es[m].x@,
    decreases es.len(),
{
    if m == 0 {
        assert(es.remove(0) =~= es.subrange(1, es.len() as int));
    } else {
        let t = es.subrange(1, es.len() as int);
        assert(es.remove(m)[0] == es[0]);
        assert(es.remove(m).subrange(1, es.remove(m).len() as int) =~= t.remove(m - 1));
        lemma_entries_sum_remove(t, m - 1);
        assert(t[m - 1] == es[m]);
    }
}

pub proof fn lemma_entries_coord_update(
    nodes: Seq<ChainData>,
    es: Seq<Entry>,
    m: int,
    e: Entry,
    c: int,
)
    requires
        0 <= m < es.len(),
    ensures
        entries_coord(nodes, es.update(m, e), c) + es[m].x@ * term_coord(nodes, es[m].g as int, c)
            == entries_coord(nodes, es, c) + e.x@ * term_coord(nodes, e.g as int, c),
    decreases es.len(),
{
    if m == 0 {
        assert(es.update(0, e)[0] == e);
        assert(es.update(0, e).subrange(1, es.len() as int) =~= es.subrange(1, es.len() as int));
    } else {
        let t = es.subrange(1, es.len() as int);
        assert(es.update(m, e)[0] == es[0]);
        assert(es.update(m, e).subrange(1, es.len() as int) =~= t.update(m - 1, e));
        lemma_entries_coord_update(nodes, t, m - 1, e, c);
        assert(t[m - 1] == es[m]);
    }
}

pub proof fn lemma_entries_sum_update(es: Seq<Entry>, m: int, e: Entry)
    requires
        0 <= m < es.len(),
    ensures
        entries_sum(es.update(m, e)) + es[m].x@ == entries_sum(es) + e.x@,
    decreases es.len(),
{
    if m == 0 {
        assert(es.update(0, e)[0] == e);
        assert(es.update(0, e).subrange(1, es.len() as int) =~= es.subrange(1, es.len() as int));
    } else {
        let t = es.subrange(1, es.len() as int);
        assert(es.update(m, e)[0] == es[0]);
        assert(es.update(m, e).subrange(1, es.len() as int) =~= t.update(m - 1, e));
        lemma_entries_sum_update(t, m - 1, e);
        assert(t[m - 1] == es[m]);
    }
}

/// Each coefficient is at most the sum of all coefficients.
pub proof fn lemma_entries_sum_element(es: Seq<Entry>, k: int)
    requires
        0 <= k < es.len(),
    ensures
        es[k].x@ <= entries_sum(es),
    decreases es.len(),
{
    if k == 0 {
    } else {
        let t = es.subrange(1, es.len() as int);
        lemma_entries_sum_element(t, k - 1);
        assert(t[k - 1] == es[k]);
    }
}

/// The weighted sum of the frontier never changes when the pool grows on the
/// right.
pub proof fn lemma_entries_coord_prefix(
    nodes: Seq<ChainData>,
    more: Seq<ChainData>,
    es: Seq<Entry>,
    c: int,
)
    requires
        nodes.len() <= more.len(),
        nodes == more.subrange(0, nodes.len() as int),
        entries_wf0(nodes, es),
    ensures
        entries_coord(more, es, c) == entries_coord(nodes, es, c),
    decreases es.len(),
{
    if es.len() > 0 {
        lemma_term_coord_prefix(nodes, more, es[0].g as int, c);
        assert(entries_wf0(nodes, es.subrange(1, es.len() as int)));
        lemma_entries_coord_prefix(nodes, more, es.subrange(1, es.len() as int), c);
    }
}

/// Tie-break policy over term depths: among equal coefficients, an entry
/// whose depth is preferred is popped from the frontier first.
pub trait ChainCmp: Sized {
    spec fn prefer(l_depth: nat, r_depth: nat) -> bool;

    proof fn prefer_transitive(a: nat, b: nat, c: nat)
        requires
            Self::prefer(a, b),
            Self::prefer(b, c),
        ensures
            Self::prefer(a, c),
    ;

    proof fn prefer_irreflexive(a: nat)
        ensures
            !Self::prefer(a, a),
    ;

    fn prefer_exec(l_depth: usize, r_depth: usize) -> (r: bool)
        ensures
            r == Self::prefer(l_depth as nat, r_depth as nat),
    ;
}

/// Pop shallower terms first.
pub struct UseShallow;

impl ChainCmp for UseShallow {
    open spec fn prefer(l_depth: nat, r_depth: nat) -> bool {
        l_depth < r_depth
    }

    proof fn prefer_transitive(a: nat, b: nat, c: nat) {
    }

    proof fn prefer_irreflexive(a: nat) {
    }

    fn prefer_exec(l_depth: usize, r_depth: usize) -> (r: bool) {
        l_depth < r_depth
    }
}

/// Pop deeper terms first.
pub struct UseDeep;

impl ChainCmp for UseDeep {
    open spec fn prefer(l_depth: nat, r_depth: nat) -> bool {
        l_depth > r_depth
    }

    proof fn prefer_transitive(a: nat, b: nat, c: nat) {
    }

    proof fn prefer_irreflexive(a: nat) {
    }

    fn prefer_exec(l_depth: usize, r_depth: usize) -> (r: bool) {
        l_depth > r_depth
    }
}

/// The frontier order: larger coefficient first, the tie-break policy on the
/// recorded term depths second.
pub open spec fn entry_gt<C: ChainCmp>(nodes: Seq<ChainData>, a: Entry, b: Entry) -> bool {
    a.x@ > b.x@ || (a.x@ == b.x@ && C::prefer(
        node_depth(nodes, a.g as int),
        node_depth(nodes, b.g as int),
    ))
}

/// The content-addressed store of immutable DAG nodes.  Nodes live in a
/// grow-only arena; the whole arena is dropped flat at the end of a
/// construction call, so no recursive ownership chain ever unwinds.
pub(crate) struct TermPool {
    pub(crate) nodes: Vec<ChainData>,
    pub(crate) dimension: usize,
}

impl TermPool {
    pub(crate) open spec fn wf(&self) -> bool {
        pool_wf(self.nodes@, self.dimension as nat)
    }

    /// A fresh pool holding one basis leaf for each of the `dimension`
    /// coordinates, at indices `0 .. dimension`.
    pub(crate) fn new(dimension: usize) -> (r: TermPool)
        ensures
            r.wf(),
            r.dimension == dimension,
            r.nodes@.len() == dimension,
            forall|i: int|
                0 <= i < dimension ==> (#[trigger] r.nodes@[i]).form == Form::Basis(i as usize),
    {
        let mut nodes: Vec<ChainData> = Vec::new();
        let mut i: usize = 0;
        while i < dimension
            invariant
                i <= dimension,
                nodes@.len() == i,
                forall|k: int|
                    0 <= k < i ==> (#[trigger] nodes@[k]) == (ChainData {
                        depth: 1usize,
                        form: Form::Basis(k as usize),
                    }),
            decreases dimension - i,
        {
            nodes.push(ChainData { depth: 1, form: Form::Basis(i) });
            i = i + 1;
        }
        proof {
            assert forall|k: int| 0 <= k < nodes@.len() implies #[trigger] pool_node_wf(
                nodes@,
                dimension as nat,
                k,
            ) by {
                assert(nodes@[k] == ChainData { depth: 1usize, form: Form::Basis(k as usize) });
            }
            assert forall|i1: int, i2: int|
                #![trigger nodes@[i1], nodes@[i2]]
                0 <= i1 < i2 < nodes@.len() implies nodes@[i1].form != nodes@[i2].form by {
                assert(nodes@[i1].form == Form::Basis(i1 as usize));
                assert(nodes@[i2].form == Form::Basis(i2 as usize));
            }
        }
        TermPool { nodes, dimension }
    }

    /// Interns the sum of the nodes at indices `a` and `b`.  Structural
    /// identity holds: the returned index is the unique node of the
    /// canonical form `add_form(a, b)`, so both argument orders and every
    /// repeated call yield the same index, and an existing node is reused
    /// rather than duplicated.  The result always denotes the pointwise
    /// vector sum of the two arguments.
    pub(crate) fn add(&mut self, a: usize, b: usize) -> (j: usize)
        requires
            old(self).wf(),
            a < old(self).nodes@.len(),
            b < old(self).nodes@.len(),
        ensures
            final(self).wf(),
            final(self).dimension == old(self).dimension,
            old(self).nodes@ == final(self).nodes@.subrange(0, old(self).nodes@.len() as int),
            final(self).nodes@.len() >= old(self).nodes@.len(),
            final(self).nodes@.len() <= old(self).nodes@.len() + 1,
            j < final(self).nodes@.len(),
            final(self).dimension <= j,
            final(self).nodes@[j as int].form == add_form(a, b),
            forall|i: int|
                0 <= i < final(self).nodes@.len() && (#[trigger] final(self).nodes@[i]).form
                    == add_form(a, b) ==> i == j,
            (exists|i: int|
                0 <= i < old(self).nodes@.len() && (#[trigger] old(self).nodes@[i]).form
                    == add_form(a, b)) ==> final(self).nodes@ == old(self).nodes@,
            forall|c: int|
                #[trigger] term_coord(final(self).nodes@, j as int, c) == term_coord(
                    old(self).nodes@,
                    a as int,
                    c,
                ) + term_coord(old(self).nodes@, b as int, c),
            forall|i: int, c: int|
                0 <= i < old(self).nodes@.len() ==> #[trigger] term_coord(
                    final(self).nodes@,
                    i,
                    c,
                ) == term_coord(old(self).nodes@, i, c),
    {
        let (lo, hi): (usize, usize) = if a < b {
            (a, b)
        } else {
            (b, a)
        };
        let dl = self.nodes[lo].depth;
        let dr = self.nodes[hi].depth;
        let m = if dl >= dr {
            dl
        } else {
            dr
        };
        let depth = if m < usize::MAX {
            m + 1
        } else {
            m
        };
        let cand = ChainData { depth, form: Form::Add(lo, hi) };
        proof {
            assert(cand.depth == depth_above(
                self.nodes@[lo as int].depth as nat,
                self.nodes@[hi as int].depth as nat,
            ));
            assert(cand.form == add_form(a, b));
        }
        let n = self.nodes.len();
        let mut j: usize = self.dimension;
        while j < n
            invariant
                self.dimension <= j,
                j <= n,
                self.nodes@ == old(self).nodes@,
                self.dimension == old(self).dimension,
                self.wf(),
                n == self.nodes@.len(),
                a < n,
                b < n,
                lo < n,
                hi < n,
                cand.form == Form::Add(lo, hi),
                cand.form == add_form(a, b),
                cand.depth == depth_above(
                    self.nodes@[lo as int].depth as nat,
                    self.nodes@[hi as int].depth as nat,
                ),
                (lo, hi) == (if a < b { (a, b) } else { (b, a) }),
                forall|j2: int|
                    self.dimension <= j2 < j ==> (#[trigger] self.nodes@[j2]).form != cand.form,
            decreases n - j,
        {
            let node = self.nodes[j];
            if node.depth == cand.depth {
                let same = match (node.form, cand.form) {
                    (Form::Add(nl, nr), Form::Add(cl, cr)) => nl == cl && nr == cr,
                    _ => false,
                };
                if same {
                    proof {
                        assert(pool_node_wf(self.nodes@, self.dimension as nat, j as int));
                        assert(self.nodes@ =~= self.nodes@.subrange(
                            0,
                            self.nodes@.len() as int,
                        ));
                        assert forall|c: int| #[trigger] term_coord(self.nodes@, j as int, c)
                            == term_coord(self.nodes@, a as int, c) + term_coord(
                            self.nodes@,
                            b as int,
                            c,
                        ) by {
                            assert(self.nodes@[j as int].form == Form::Add(lo, hi));
                        }
                        // interning: distinct pool nodes have distinct forms
                        assert forall|i: int|
                            0 <= i < self.nodes@.len() && (#[trigger] self.nodes@[i]).form
                                == add_form(a, b) implies i == j by {
                            if i < j {
                                assert(self.nodes@[i].form != self.nodes@[j as int].form);
                            } else if j < i {
                                assert(self.nodes@[j as int].form != self.nodes@[i].form);
                            }
                        }
                    }
                    return j;
                }
            }
            proof {
                // no match at `j`: a node of the candidate's form would be
                // forced by well-formedness to carry the candidate's depth
                assert(self.nodes@[j as int].form != cand.form) by {
                    if self.nodes@[j as int].form == cand.form {
                        assert(pool_node_wf(self.nodes@, self.dimension as nat, j as int));
                    }
                };
            }
            j = j + 1;
        }
        let ghost pre = self.nodes@;
        self.nodes.push(cand);
        proof {
            assert(pre =~= self.nodes@.subrange(0, pre.len() as int));
            assert forall|i: int| 0 <= i < self.nodes@.len() implies #[trigger] pool_node_wf(
                self.nodes@,
                self.dimension as nat,
                i,
            ) by {
                if i < pre.len() {
                    assert(pool_node_wf(pre, self.dimension as nat, i));
                    assert(self.nodes@[i] == pre[i]);
                    match pre[i].form {
                        Form::Basis(_) => {},
                        Form::Add(l, r) => {
                            assert(self.nodes@[l as int] == pre[l as int]);
                            assert(self.nodes@[r as int] == pre[r as int]);
                        },
                    }
                } else {
                    assert(self.nodes@[i] == cand);
                    assert(pool_node_wf(pre, self.dimension as nat, lo as int));
                    assert(pool_node_wf(pre, self.dimension as nat, hi as int));
                }
            }
            assert forall|i: int, c: int| 0 <= i < pre.len() implies #[trigger] term_coord(
                self.nodes@,
                i,
                c,
            ) == term_coord(pre, i, c) by {
                lemma_term_coord_prefix(pre, self.nodes@, i, c);
            }
            assert forall|c: int| #[trigger] term_coord(self.nodes@, n as int, c) == term_coord(
                pre,
                a as int,
                c,
            ) + term_coord(pre, b as int, c) by {
                assert(self.nodes@[n as int].form == Form::Add(lo, hi));
                lemma_term_coord_prefix(pre, self.nodes@, lo as int, c);
                lemma_term_coord_prefix(pre, self.nodes@, hi as int, c);
            }
            // no earlier node carries the candidate's form: the scan covered
            // the additions, and leaves are a different variant
            assert forall|i: int| 0 <= i < pre.len() implies (#[trigger] pre[i]).form
                != cand.form by {
                assert(pool_node_wf(pre, self.dimension as nat, i));
                match pre[i].form {
                    Form::Basis(_) => {},
                    Form::Add(_, _) => {
                        assert(self.dimension <= i);
                    },
                }
            }
            assert forall|i1: int, i2: int|
                #![trigger self.nodes@[i1], self.nodes@[i2]]
                0 <= i1 < i2 < self.nodes@.len() implies self.nodes@[i1].form
                != self.nodes@[i2].form by {
                if i2 < pre.len() {
                    assert(pre[i1].form != pre[i2].form);
                } else {
                    assert(self.nodes@[i2] == cand);
                    assert(pre[i1].form != cand.form);
                }
            }
            assert forall|i: int|
                0 <= i < self.nodes@.len() && (#[trigger] self.nodes@[i]).form == add_form(
                    a,
                    b,
                ) implies i == n by {
                if i < pre.len() {
                    assert(pre[i].form != cand.form);
                }
            }
        }
        n
    }
}

/// Removes and returns a maximal entry under the frontier order; everything
/// left behind carries a coefficient no larger than the popped one.
pub(crate) fn pop_max<C: ChainCmp>(pool: &TermPool, entries: &mut Vec<Entry>) -> (e: Entry)
    requires
        old(entries)@.len() >= 1,
        entries_wf0(pool.nodes@, old(entries)@),
    ensures
        exists|m: int|
            0 <= m < old(entries)@.len() && e == old(entries)@[m] && final(entries)@ == old(
                entries,
            )@.remove(m),
        forall|k: int|
            0 <= k < final(entries)@.len() ==> (#[trigger] final(entries)@[k]).x@ <= e.x@,
{
    let n = entries.len();
    let mut best: usize = 0;
    let mut j: usize = 1;
    proof {
        C::prefer_irreflexive(node_depth(pool.nodes@, entries@[0].g as int));
    }
    while j < n
        invariant
            1 <= j <= n,
            best < j,
            n == entries@.len(),
            entries@ == old(entries)@,
            entries_wf0(pool.nodes@, entries@),
            forall|k: int|
                0 <= k < j ==> !entry_gt::<C>(
                    pool.nodes@,
                    #[trigger] entries@[k],
                    entries@[best as int],
                ),
        decreases n - j,
    {
        let cur_x = &entries[j].x;
        let best_x = &entries[best].x;
        let is_gt: bool = match cur_x.cmp_val(best_x) {
            crate::scalar::Cmp::Greater => true,
            crate::scalar::Cmp::Equal => {
                let dj = pool.nodes[entries[j].g].depth;
                let db = pool.nodes[entries[best].g].depth;
                C::prefer_exec(dj, db)
            },
            crate::scalar::Cmp::Less => false,
        };
        proof {
            assert(is_gt == entry_gt::<C>(pool.nodes@, entries@[j as int], entries@[best as int]));
        }
        if is_gt {
            proof {
                let s = entries@;
                let ob = best as int;
                assert forall|k: int| 0 <= k < j implies !entry_gt::<C>(
                    pool.nodes@,
                    #[trigger] s[k],
                    s[j as int],
                ) by {
                    if entry_gt::<C>(pool.nodes@, s[k], s[j as int]) {
                        if s[k].x@ > s[j as int].x@ {
                            assert(entry_gt::<C>(pool.nodes@, s[k], s[ob]));
                        } else {
                            assert(s[k].x@ == s[j as int].x@);
                            if s[j as int].x@ > s[ob].x@ {
                                assert(entry_gt::<C>(pool.nodes@, s[k], s[ob]));
                            } else {
                                C::prefer_transitive(
                                    node_depth(pool.nodes@, s[k].g as int),
                                    node_depth(pool.nodes@, s[j as int].g as int),
                                    node_depth(pool.nodes@, s[ob].g as int),
                                );
                                assert(entry_gt::<C>(pool.nodes@, s[k], s[ob]));
                            }
                        }
                    }
                }
            }
            proof {
                C::prefer_irreflexive(node_depth(pool.nodes@, entries@[j as int].g as int));
            }
            best = j;
        }
        j = j + 1;
    }
    let e = entries.remove(best);
    proof {
        let s = old(entries)@;
        assert(e == s[best as int] && entries@ == s.remove(best as int));
        assert forall|k: int| 0 <= k < entries@.len() implies (#[trigger] entries@[k]).x@ <= e.x@
            by {
            if k < best {
                assert(entries@[k] == s[k]);
                assert(!entry_gt::<C>(pool.nodes@, s[k], s[best as int]));
            } else {
                assert(entries@[k] == s[k + 1]);
                assert(!entry_gt::<C>(pool.nodes@, s[k + 1], s[best as int]));
            }
        }
    }
    e
}


/// Being a prefix is transitive.
pub proof fn lemma_prefix_trans(a: Seq<ChainData>, b: Seq<ChainData>, c: Seq<ChainData>)
    requires
        a.len() <= b.len(),
        b.len() <= c.len(),
        a == b.subrange(0, a.len() as int),
        b == c.subrange(0, b.len() as int),
    ensures
        a == c.subrange(0, a.len() as int),
{
    assert forall|i: int| 0 <= i < a.len() implies a[i] == #[trigger] c.subrange(
        0,
        a.len() as int,
    )[i] by {
        assert(a[i] == b.subrange(0, a.len() as int)[i]);
        assert(b[i] == c.subrange(0, b.len() as int)[i]);
    }
    assert(a =~= c.subrange(0, a.len() as int));
}

/// Coordinate `c` of the optional accumulator during double-and-add.
pub open spec fn acc_coord(nodes: Seq<ChainData>, acc: Option<usize>, c: int) -> nat {
    match acc {
        Option::Some(a) => term_coord(nodes, a as int, c),
        Option::None => 0nat,
    }
}

/// Expands `x` times the node at `g` into a single pool node by
/// double-and-add from the low bit of the coefficient.
pub(crate) fn mult(pool: &mut TermPool, x: &Scalar, g: usize) -> (root: usize)
    requires
        old(pool).wf(),
        x.wf(),
        x@ >= 1,
        g < old(pool).nodes@.len(),
    ensures
        final(pool).wf(),
        final(pool).dimension == old(pool).dimension,
        old(pool).nodes@ == final(pool).nodes@.subrange(0, old(pool).nodes@.len() as int),
        final(pool).nodes@.len() >= old(pool).nodes@.len(),
        root < final(pool).nodes@.len(),
        forall|c: int|
            #[trigger] term_coord(final(pool).nodes@, root as int, c) == x@ * term_coord(
                old(pool).nodes@,
                g as int,
                c,
            ),
{
    let ghost nodes0 = pool.nodes@;
    let mut scalar = x.duplicate();
    let mut p2 = g;
    let mut acc: Option<usize> = None;
    loop
        invariant_except_break
            pool.wf(),
            pool.dimension == old(pool).dimension,
            nodes0 == old(pool).nodes@,
            nodes0.len() <= pool.nodes@.len(),
            nodes0 == pool.nodes@.subrange(0, nodes0.len() as int),
            scalar.wf(),
            g < nodes0.len(),
            p2 < pool.nodes@.len(),
            acc matches Option::Some(a) ==> a < pool.nodes@.len(),
            acc is None ==> scalar@ >= 1,
            forall|c: int|
                #[trigger] acc_coord(pool.nodes@, acc, c) + scalar@ * term_coord(
                    pool.nodes@,
                    p2 as int,
                    c,
                ) == x@ * term_coord(pool.nodes@, g as int, c),
        ensures
            pool.wf(),
            pool.dimension == old(pool).dimension,
            nodes0 == old(pool).nodes@,
            nodes0.len() <= pool.nodes@.len(),
            nodes0 == pool.nodes@.subrange(0, nodes0.len() as int),
            acc matches Option::Some(a) && a < pool.nodes@.len() && forall|c: int|
                #[trigger] term_coord(pool.nodes@, a as int, c) == x@ * term_coord(
                    pool.nodes@,
                    g as int,
                    c,
                ),
        decreases scalar@,
    {
        if scalar.is_zero() {
            proof {
                if acc is None {
                    assert(false);
                }
                let a = acc->Some_0;
                assert forall|c: int| #[trigger] term_coord(pool.nodes@, a as int, c) == x@
                    * term_coord(pool.nodes@, g as int, c) by {
                    assert(acc_coord(pool.nodes@, acc, c) + scalar@ * term_coord(
                        pool.nodes@,
                        p2 as int,
                        c,
                    ) == x@ * term_coord(pool.nodes@, g as int, c));
                    assert(0nat * term_coord(pool.nodes@, p2 as int, c) == 0) by (nonlinear_arith);
                }
            }
            break;
        }
        let ghost s0 = scalar@;
        let ghost pool_a = pool.nodes@;
        let ghost acc_a = acc;
        let ghost p2_a = p2;
        let odd = scalar.is_odd();
        if odd {
            let new_acc = match acc {
                Some(a) => pool.add(a, p2),
                None => p2,
            };
            acc = Some(new_acc);
        }
        let ghost pool_b = pool.nodes@;
        let ghost acc_b = acc;
        proof {
            assert(pool_a.len() <= pool_b.len() && pool_a == pool_b.subrange(
                0,
                pool_a.len() as int,
            )) by {
                if pool_a == pool_b {
                    assert(pool_a =~= pool_b.subrange(0, pool_a.len() as int));
                }
            };
            lemma_prefix_trans(nodes0, pool_a, pool_b);
            // after the optional accumulation, over the current pool:
            assert forall|c: int| #[trigger] acc_coord(pool_b, acc_b, c) == acc_coord(
                pool_a,
                acc_a,
                c,
            ) + (if s0 % 2 == 1 {
                term_coord(pool_a, p2_a as int, c)
            } else {
                0nat
            }) by {
                if odd {
                    match acc_a {
                        Option::Some(a) => {},
                        Option::None => {},
                    }
                } else {
                    match acc_a {
                        Option::Some(a) => {
                            lemma_term_coord_prefix(pool_a, pool_b, a as int, c);
                        },
                        Option::None => {},
                    }
                }
            }
        }
        let p2_new = pool.add(p2, p2);
        proof {
            lemma_prefix_trans(nodes0, pool_b, pool.nodes@);
        }
        p2 = p2_new;
        scalar.div2();
        proof {
            let pool_c = pool.nodes@;
            lemma_fundamental_div_mod(s0 as int, 2);
            assert forall|c: int| #[trigger] acc_coord(pool_c, acc, c) + scalar@ * term_coord(
                pool_c,
                p2 as int,
                c,
            ) == x@ * term_coord(pool_c, g as int, c) by {
                let t = term_coord(pool_a, p2_a as int, c);
                // the doubled node denotes twice the old term
                assert(term_coord(pool_b, p2_a as int, c) == t) by {
                    lemma_term_coord_prefix(pool_a, pool_b, p2_a as int, c);
                }
                assert(term_coord(pool_c, p2_new as int, c) == t + t);
                // the accumulator kept its value across the second intern
                assert(acc_coord(pool_c, acc, c) == acc_coord(pool_b, acc_b, c)) by {
                    match acc_b {
                        Option::Some(a) => {},
                        Option::None => {},
                    }
                }
                // the right-hand side is stable across both interns
                assert(term_coord(pool_c, g as int, c) == term_coord(pool_a, g as int, c)) by {
                    lemma_term_coord_prefix(pool_a, pool_b, g as int, c);
                    lemma_term_coord_prefix(pool_b, pool_c, g as int, c);
                }
                // halving plus doubling preserves the weighted value
                assert((s0 / 2) * (t + t) == (s0 - s0 % 2) * t) by (nonlinear_arith)
                    requires s0 == 2 * (s0 / 2) + s0 % 2,
                ;
                assert(acc_coord(pool_a, acc_a, c) + s0 * t == x@ * term_coord(
                    pool_a,
                    g as int,
                    c,
                ));
                if s0 % 2 == 1 {
                    assert((s0 - s0 % 2) * t == s0 * t - t) by (nonlinear_arith)
                        requires s0 >= 1, s0 % 2 == 1,
                    ;
                } else {
                    assert((s0 - s0 % 2) * t == s0 * t) by (nonlinear_arith)
                        requires s0 % 2 == 0,
                    ;
                }
            }
        }
    }
    let root = match acc {
        Some(a) => a,
        None => 0,
    };
    proof {
        assert(acc is Some);
        assert forall|c: int| #[trigger] term_coord(pool.nodes@, root as int, c) == x@
            * term_coord(nodes0, g as int, c) by {
            lemma_term_coord_prefix(nodes0, pool.nodes@, g as int, c);
        }
    }
    root
}


/// Structural size of the tree expansion of the node at index `i`.
pub open spec fn term_size(nodes: Seq<ChainData>, i: int) -> nat
    decreases i,
{
    if 0 <= i < nodes.len() {
        match nodes[i].form {
            Form::Basis(_) => 1nat,
            Form::Add(l, r) => if l < i && r < i {
                1 + term_size(nodes, l as int) + term_size(nodes, r as int)
            } else {
                1nat
            },
        }
    } else {
        1nat
    }
}

pub proof fn lemma_term_size_pos(nodes: Seq<ChainData>, i: int)
    ensures
        term_size(nodes, i) >= 1,
{
}

/// Contribution of one stack entry to the termination measure of the
/// linearizer: an unvisited node weighs three times its tree size, an
/// expanding node weighs two, a labeled node weighs one.
pub open spec fn node_weight(nodes: Seq<ChainData>, status: Seq<u8>, e: int) -> nat {
    if 0 <= e < status.len() {
        if status[e] == 0 {
            3 * term_size(nodes, e)
        } else if status[e] == 1 {
            2nat
        } else {
            1nat
        }
    } else {
        1nat
    }
}

pub open spec fn stack_measure(nodes: Seq<ChainData>, status: Seq<u8>, stack: Seq<usize>) -> nat
    decreases stack.len(),
{
    if stack.len() == 0 {
        0nat
    } else {
        node_weight(nodes, status, stack.last() as int) + stack_measure(
            nodes,
            status,
            stack.drop_last(),
        )
    }
}

/// The measure can only fall when no entry's weight rises.
pub proof fn lemma_stack_measure_mono(
    nodes: Seq<ChainData>,
    st1: Seq<u8>,
    st2: Seq<u8>,
    stack: Seq<usize>,
)
    requires
        forall|e: int| #[trigger] node_weight(nodes, st2, e) <= node_weight(nodes, st1, e),
    ensures
        stack_measure(nodes, st2, stack) <= stack_measure(nodes, st1, stack),
    decreases stack.len(),
{
    if stack.len() > 0 {
        lemma_stack_measure_mono(nodes, st1, st2, stack.drop_last());
        assert(node_weight(nodes, st2, stack.last() as int) <= node_weight(
            nodes,
            st1,
            stack.last() as int,
        ));
    }
}

pub proof fn lemma_stack_measure_push(
    nodes: Seq<ChainData>,
    status: Seq<u8>,
    stack: Seq<usize>,
    e: usize,
)
    ensures
        stack_measure(nodes, status, stack.push(e)) == stack_measure(nodes, status, stack)
            + node_weight(nodes, status, e as int),
{
    assert(stack.push(e).drop_last() =~= stack);
    assert(stack.push(e).last() == e);
}

/// Number of labeled nodes at index `from` and above.
pub open spec fn count_labeled_from(status: Seq<u8>, from: int) -> nat
    decreases status.len() - from,
{
    if from < 0 || from >= status.len() {
        0nat
    } else {
        (if status[from] == 2 {
            1nat
        } else {
            0nat
        }) + count_labeled_from(status, from + 1)
    }
}

pub proof fn lemma_count_bound(status: Seq<u8>, from: int)
    requires
        0 <= from <= status.len(),
    ensures
        count_labeled_from(status, from) <= status.len() - from,
    decreases status.len() - from,
{
    if from < status.len() {
        lemma_count_bound(status, from + 1);
    }
}

pub proof fn lemma_count_update(status: Seq<u8>, from: int, t: int, v: u8)
    requires
        0 <= from,
        0 <= t < status.len(),
    ensures
        count_labeled_from(status.update(t, v), from) + (if from <= t && status[t] == 2 {
            1nat
        } else {
            0nat
        }) == count_labeled_from(status, from) + (if from <= t && v == 2 {
            1nat
        } else {
            0nat
        }),
    decreases status.len() - from,
{
    if from < status.len() {
        lemma_count_update(status, from + 1, t, v);
    }
}

pub proof fn lemma_count_all_unlabeled(status: Seq<u8>, from: int)
    requires
        forall|k: int| 0 <= k < status.len() ==> #[trigger] status[k] != 2,
    ensures
        count_labeled_from(status, from) == 0,
    decreases status.len() - from,
{
    if 0 <= from < status.len() {
        lemma_count_all_unlabeled(status, from + 1);
    }
}

/// A labeled node's assigned label denotes, over the chain built so far,
/// exactly the node's vector value.
pub open spec fn labeled_ok(
    nodes: Seq<ChainData>,
    dim: nat,
    adds: Seq<(usize, usize)>,
    label_of: Seq<usize>,
    i: int,
) -> bool {
    &&& label_of[i] < dim + adds.len()
    &&& (i < dim ==> label_of[i] == i)
    &&& forall|c: int|
        #[trigger] label_coord(dim, adds, label_of[i] as int, c) == term_coord(nodes, i, c)
}

pub open spec fn on_stack_above(stack: Seq<usize>, k: int, ch: usize) -> bool {
    exists|m: int| k < m < stack.len() && stack[m] == ch
}

/// Position `k` holds `x` with only strict descendants (smaller indices)
/// above it; every expanding node keeps such a position on the stack.
pub open spec fn is_master(stack: Seq<usize>, k: int, x: usize) -> bool {
    &&& 0 <= k < stack.len()
    &&& stack[k] == x
    &&& forall|m: int| k < m < stack.len() ==> (#[trigger] stack[m]) < x
}

/// An expanding stack entry is an addition whose children are each already
/// labeled or still above it on the stack.
pub open spec fn expand_ok(
    nodes: Seq<ChainData>,
    status: Seq<u8>,
    stack: Seq<usize>,
    k: int,
) -> bool {
    status[stack[k] as int] == 1 ==> match nodes[stack[k] as int].form {
        Form::Add(l, r) => (status[l as int] == 2 || on_stack_above(stack, k, l)) && (status[
            r as int
        ] == 2 || on_stack_above(stack, k, r)),
        Form::Basis(_) => false,
    }
}


/// After one step of the walk, a child that was labeled or above position
/// `k` is still labeled or above `k`, provided labels were kept, positions
/// strictly between `k` and the old top were kept, and the old top itself is
/// now labeled or somewhere above `k`.
pub proof fn lemma_child_ok_transfer(
    st0: Seq<u8>,
    status_new: Seq<u8>,
    stk0: Seq<usize>,
    stack_new: Seq<usize>,
    k: int,
    ch: usize,
)
    requires
        0 <= k,
        stk0.len() >= 1,
        (ch as int) < st0.len(),
        st0.len() == status_new.len(),
        st0[ch as int] == 2 || on_stack_above(stk0, k, ch),
        forall|e: int| 0 <= e < st0.len() && #[trigger] st0[e] == 2 ==> status_new[e] == 2,
        forall|m: int|
            k < m < stk0.len() - 1 ==> stack_new.len() > m && #[trigger] stack_new[m] == stk0[m],
        status_new[stk0.last() as int] == 2 || on_stack_above(stack_new, k, stk0.last()),
    ensures
        status_new[ch as int] == 2 || on_stack_above(stack_new, k, ch),
{
    if st0[ch as int] == 2 {
    } else {
        let m = choose|m: int| k < m < stk0.len() && stk0[m] == ch;
        if m < stk0.len() - 1 {
            assert(stack_new[m] == ch);
            assert(on_stack_above(stack_new, k, ch));
        } else {
            assert(ch == stk0.last());
        }
    }
}

/// Walks the DAG below `root` with an explicit stack and emits a
/// deduplicated, topologically ordered addition list; the last emitted label
/// denotes the root's vector value.
pub(crate) fn linearize(pool: &TermPool, root: usize) -> (adds: Vec<(usize, usize)>)
    requires
        pool.wf(),
        root < pool.nodes@.len(),
    ensures
        chain_wf(pool.dimension as nat, adds@),
        pool.dimension + adds@.len() <= pool.nodes@.len(),
        root < pool.dimension ==> adds@.len() == 0,
        pool.dimension <= root ==> adds@.len() >= 1 && (forall|c: int|
            #[trigger] label_coord(
                pool.dimension as nat,
                adds@,
                pool.dimension + adds@.len() - 1,
                c,
            ) == term_coord(pool.nodes@, root as int, c)),
{
    let ghost nodes = pool.nodes@;
    let dim = pool.dimension;
    let ghost dimn = dim as nat;
    let n = pool.nodes.len();
    let mut status: Vec<u8> = Vec::new();
    let mut label_of: Vec<usize> = Vec::new();
    let mut i: usize = 0;
    while i < n
        invariant
            i <= n,
            status@.len() == i,
            label_of@.len() == i,
            forall|k: int| 0 <= k < i ==> #[trigger] status@[k] == 0u8,
        decreases n - i,
    {
        status.push(0);
        label_of.push(0);
        i = i + 1;
    }
    let mut stack: Vec<usize> = Vec::new();
    stack.push(root);
    let mut adds: Vec<(usize, usize)> = Vec::new();
    proof {
        lemma_count_all_unlabeled(status@, dim as int);
    }
    while stack.len() > 0
        invariant
            pool.wf(),
            nodes == pool.nodes@,
            dim == pool.dimension,
            dimn == dim as nat,
            n == nodes.len(),
            root < n,
            status@.len() == n,
            label_of@.len() == n,
            forall|i2: int| 0 <= i2 < n ==> #[trigger] status@[i2] <= 2,
            forall|i2: int|
                0 <= i2 < n && #[trigger] status@[i2] == 2 ==> labeled_ok(
                    nodes,
                    dimn,
                    adds@,
                    label_of@,
                    i2,
                ),
            chain_wf(dimn, adds@),
            count_labeled_from(status@, dim as int) == adds@.len(),
            forall|k: int| 0 <= k < stack@.len() ==> (#[trigger] stack@[k]) < n,
            forall|k: int| 0 <= k < stack@.len() ==> #[trigger] expand_ok(nodes, status@, stack@, k),
            forall|i2: int|
                0 <= i2 < n && #[trigger] status@[i2] == 1 ==> (exists|k: int| #[trigger] is_master(stack@, k, i2 as usize)),
            stack@.len() >= 1 ==> stack@[0] == root && status@[root as int] != 2,
            forall|k: int| 1 <= k < stack@.len() ==> (#[trigger] stack@[k]) < root,
            stack@.len() == 0 ==> status@[root as int] == 2,
            root < dim ==> adds@.len() == 0 && stack@.len() <= 1,
            status@[root as int] == 2 ==> (dim <= root ==> adds@.len() >= 1 && label_of@[
                root as int
            ] == dim + adds@.len() - 1),
        decreases stack_measure(nodes, status@, stack@),
    {
        let ghost stk0 = stack@;
        let ghost st0 = status@;
        let ghost adds0 = adds@;
        let ghost lbl0 = label_of@;
        let t_opt = stack.pop();
        let t = t_opt.unwrap();
        proof {
            assert(t == stk0.last());
            assert(stack@ == stk0.drop_last());
            assert(stk0[stk0.len() - 1] < n);
            assert(stack_measure(nodes, st0, stk0) == node_weight(nodes, st0, t as int)
                + stack_measure(nodes, st0, stack@));
        }
        let st = status[t];
        if st == 2 {
            proof {
                assert(t != root);
                assert(stk0.len() >= 2);
                assert forall|k: int| 0 <= k < stack@.len() implies #[trigger] expand_ok(
                    nodes,
                    status@,
                    stack@,
                    k,
                ) by {
                    assert(expand_ok(nodes, st0, stk0, k));
                    if status@[stack@[k] as int] == 1 {
                        assert(pool_node_wf(nodes, dimn, stack@[k] as int));
                        match nodes[stack@[k] as int].form {
                            Form::Add(l2, r2) => {
                                lemma_child_ok_transfer(st0, status@, stk0, stack@, k, l2);
                                lemma_child_ok_transfer(st0, status@, stk0, stack@, k, r2);
                            },
                            Form::Basis(_) => {},
                        }
                    }
                }
                assert forall|i2: int|
                    0 <= i2 < n && #[trigger] status@[i2] == 1 implies (exists|k: int| #[trigger] is_master(stack@, k, i2 as usize)) by {
                    let k = choose|k: int| #[trigger] is_master(stk0, k, i2 as usize);
                    assert(k < stk0.len() - 1) by {
                        if k == stk0.len() - 1 {
                            assert(st0[t as int] == 2);
                        }
                    };
                    assert(is_master(stack@, k, i2 as usize)) by {
                        assert forall|m: int| k < m < stack@.len() implies (#[trigger] stack@[m])
                            < i2 as usize by {
                            assert(stack@[m] == stk0[m]);
                        }
                    };
                }
                assert(node_weight(nodes, st0, t as int) >= 1);
            }
        } else if st == 1 {
            let node = pool.nodes[t];
            match node.form {
                Form::Add(l, r) => {
                    proof {
                        assert(pool_node_wf(nodes, dimn, t as int));
                        assert(expand_ok(nodes, st0, stk0, stk0.len() - 1));
                        assert(!on_stack_above(stk0, stk0.len() - 1, l));
                        assert(!on_stack_above(stk0, stk0.len() - 1, r));
                        assert(st0[l as int] == 2 && st0[r as int] == 2);
                        assert(labeled_ok(nodes, dimn, adds0, lbl0, l as int));
                        assert(labeled_ok(nodes, dimn, adds0, lbl0, r as int));
                        lemma_count_bound(st0, dim as int);
                    }
                    let ll = label_of[l];
                    let rl = label_of[r];
                    let label = dim + adds.len();
                    adds.push((ll, rl));
                    status[t] = 2;
                    label_of[t] = label;
                    proof {
                        let nl = adds0.len() as int;
                        assert(adds@ == adds0.push((ll, rl)));
                        assert(adds0 =~= adds@.subrange(0, nl));
                        // the chain stays well formed
                        assert forall|i2: int| 0 <= i2 < adds@.len() implies (#[trigger] adds@[
                            i2
                        ]).0 < dimn + i2 && adds@[i2].1 < dimn + i2 by {
                            if i2 < nl {
                                assert(adds@[i2] == adds0[i2]);
                            }
                        }
                        // every assigned label keeps or gains its value
                        assert forall|i2: int|
                            0 <= i2 < n && #[trigger] status@[i2] == 2 implies labeled_ok(
                            nodes,
                            dimn,
                            adds@,
                            label_of@,
                            i2,
                        ) by {
                            if i2 == t {
                                assert(label_of@[i2] == label);
                                assert forall|c: int| #[trigger] label_coord(
                                    dimn,
                                    adds@,
                                    label as int,
                                    c,
                                ) == term_coord(nodes, t as int, c) by {
                                    assert(adds@[label - dimn] == (ll, rl));
                                    lemma_label_coord_extend(dimn, adds0, adds@, ll as int, c);
                                    lemma_label_coord_extend(dimn, adds0, adds@, rl as int, c);
                                    assert(label_coord(dimn, adds@, label as int, c)
                                        == label_coord(dimn, adds@, ll as int, c) + label_coord(
                                        dimn,
                                        adds@,
                                        rl as int,
                                        c,
                                    ));
                                }
                            } else {
                                assert(st0[i2] == 2);
                                assert(labeled_ok(nodes, dimn, adds0, lbl0, i2));
                                assert(label_of@[i2] == lbl0[i2]);
                                assert forall|c: int| #[trigger] label_coord(
                                    dimn,
                                    adds@,
                                    label_of@[i2] as int,
                                    c,
                                ) == term_coord(nodes, i2, c) by {
                                    lemma_label_coord_extend(
                                        dimn,
                                        adds0,
                                        adds@,
                                        lbl0[i2] as int,
                                        c,
                                    );
                                }
                            }
                        }
                        // the labeled count tracks the addition count
                        lemma_count_update(st0, dim as int, t as int, 2);
                        // every expansion clause survives the pop
                        assert forall|k: int| 0 <= k < stack@.len() implies #[trigger] expand_ok(
                            nodes,
                            status@,
                            stack@,
                            k,
                        ) by {
                            assert(expand_ok(nodes, st0, stk0, k));
                            if status@[stack@[k] as int] == 1 {
                                assert(stack@[k] != t);
                                assert(st0[stack@[k] as int] == 1);
                                assert(pool_node_wf(nodes, dimn, stack@[k] as int));
                                match nodes[stack@[k] as int].form {
                                    Form::Add(l2, r2) => {
                                        lemma_child_ok_transfer(
                                            st0,
                                            status@,
                                            stk0,
                                            stack@,
                                            k,
                                            l2,
                                        );
                                        lemma_child_ok_transfer(
                                            st0,
                                            status@,
                                            stk0,
                                            stack@,
                                            k,
                                            r2,
                                        );
                                    },
                                    Form::Basis(_) => {},
                                }
                            }
                        }
                        // expanding nodes keep a master position
                        assert forall|i2: int|
                            0 <= i2 < n && #[trigger] status@[i2] == 1 implies (exists|k: int| #[trigger] is_master(stack@, k, i2 as usize)) by {
                            assert(i2 != t);
                            assert(st0[i2] == 1);
                            let k = choose|k: int| #[trigger] is_master(stk0, k, i2 as usize);
                            assert(k < stk0.len() - 1) by {
                                if k == stk0.len() - 1 {
                                    assert(stk0[k] == t);
                                }
                            };
                            assert(is_master(stack@, k, i2 as usize)) by {
                                assert forall|m: int| k < m < stack@.len() implies (
                                #[trigger] stack@[m]) < i2 as usize by {
                                    assert(stack@[m] == stk0[m]);
                                }
                            };
                        }
                        // root bookkeeping
                        if t == root {
                            assert(stk0.len() == 1) by {
                                if stk0.len() >= 2 {
                                    assert(stk0[stk0.len() - 1] < root);
                                }
                            };
                        } else {
                            assert(stk0.len() >= 2) by {
                                if stk0.len() == 1 {
                                    assert(stk0[0] == root);
                                }
                            };
                        }
                        if root < dim {
                            assert(stk0.len() <= 1);
                            assert(stk0[0] == root);
                            assert(t == root);
                            assert(dimn <= t);
                            assert(false);
                        }
                        // the measure falls: a weight of two leaves the stack
                        assert forall|e: int| #[trigger] node_weight(nodes, status@, e)
                            <= node_weight(nodes, st0, e) by {
                            lemma_term_size_pos(nodes, e);
                        }
                        lemma_stack_measure_mono(nodes, st0, status@, stack@);
                    }
                },
                Form::Basis(_) => {
                    proof {
                        assert(expand_ok(nodes, st0, stk0, stk0.len() - 1));
                        assert(false);
                    }
                },
            }
        } else {
            let node = pool.nodes[t];
            match node.form {
                Form::Basis(_) => {
                    label_of[t] = t;
                    status[t] = 2;
                    proof {
                        assert(pool_node_wf(nodes, dimn, t as int));
                        assert(t < dim);
                        assert forall|i2: int|
                            0 <= i2 < n && #[trigger] status@[i2] == 2 implies labeled_ok(
                            nodes,
                            dimn,
                            adds@,
                            label_of@,
                            i2,
                        ) by {
                            if i2 == t {
                                assert forall|c: int| #[trigger] label_coord(
                                    dimn,
                                    adds@,
                                    t as int,
                                    c,
                                ) == term_coord(nodes, t as int, c) by {
                                }
                            } else {
                                assert(st0[i2] == 2);
                                assert(labeled_ok(nodes, dimn, adds0, lbl0, i2));
                            }
                        }
                        lemma_count_update(st0, dim as int, t as int, 2);
                        assert forall|k: int| 0 <= k < stack@.len() implies #[trigger] expand_ok(
                            nodes,
                            status@,
                            stack@,
                            k,
                        ) by {
                            assert(expand_ok(nodes, st0, stk0, k));
                            if status@[stack@[k] as int] == 1 {
                                assert(stack@[k] != t);
                                assert(st0[stack@[k] as int] == 1);
                                assert(pool_node_wf(nodes, dimn, stack@[k] as int));
                                match nodes[stack@[k] as int].form {
                                    Form::Add(l2, r2) => {
                                        lemma_child_ok_transfer(
                                            st0,
                                            status@,
                                            stk0,
                                            stack@,
                                            k,
                                            l2,
                                        );
                                        lemma_child_ok_transfer(
                                            st0,
                                            status@,
                                            stk0,
                                            stack@,
                                            k,
                                            r2,
                                        );
                                    },
                                    Form::Basis(_) => {},
                                }
                            }
                        }
                        assert forall|i2: int|
                            0 <= i2 < n && #[trigger] status@[i2] == 1 implies (exists|k: int| #[trigger] is_master(stack@, k, i2 as usize)) by {
                            assert(i2 != t);
                            assert(st0[i2] == 1);
                            let k = choose|k: int| #[trigger] is_master(stk0, k, i2 as usize);
                            assert(k < stk0.len() - 1) by {
                                if k == stk0.len() - 1 {
                                    assert(stk0[k] == t);
                                }
                            };
                            assert(is_master(stack@, k, i2 as usize)) by {
                                assert forall|m: int| k < m < stack@.len() implies (
                                #[trigger] stack@[m]) < i2 as usize by {
                                    assert(stack@[m] == stk0[m]);
                                }
                            };
                        }
                        if t == root {
                            assert(stk0.len() == 1) by {
                                if stk0.len() >= 2 {
                                    assert(stk0[stk0.len() - 1] < root);
                                }
                            };
                        } else {
                            assert(stk0.len() >= 2) by {
                                if stk0.len() == 1 {
                                    assert(stk0[0] == root);
                                }
                            };
                        }
                        assert forall|e: int| #[trigger] node_weight(nodes, status@, e)
                            <= node_weight(nodes, st0, e) by {
                            lemma_term_size_pos(nodes, e);
                        }
                        lemma_stack_measure_mono(nodes, st0, status@, stack@);
                        assert(node_weight(nodes, st0, t as int) >= 1);
                    }
                },
                Form::Add(l, r) => {
                    status[t] = 1;
                    stack.push(t);
                    stack.push(l);
                    stack.push(r);
                    proof {
                        let stk1 = stk0.drop_last();
                        assert(pool_node_wf(nodes, dimn, t as int));
                        assert(l < t && r < t && dimn <= t);
                        lemma_count_update(st0, dim as int, t as int, 1);
                        assert(stack@ == stk1.push(t).push(l).push(r));
                        assert(st0[t as int] == 0);
                        assert(stack@.len() == stk0.len() + 2);
                        assert(stack@[stk0.len() - 1] == t);
                        assert(stack@[stk0.len() as int] == l);
                        assert(stack@[stk0.len() as int + 1] == r);
                        assert forall|m: int| 0 <= m < stk0.len() - 1 implies #[trigger] stack@[m]
                            == stk0[m] by {
                            assert(stack@[m] == stk1[m]);
                        }
                        // children are not in the expanding state
                        assert(status@[l as int] != 1 && status@[r as int] != 1) by {
                            if st0[l as int] == 1 {
                                let k = choose|k: int| #[trigger] is_master(stk0, k, l);
                                if k == stk0.len() - 1 {
                                    assert(stk0[k] == t);
                                } else {
                                    assert(stk0[stk0.len() - 1] < l);
                                }
                            }
                            if st0[r as int] == 1 {
                                let k = choose|k: int| #[trigger] is_master(stk0, k, r);
                                if k == stk0.len() - 1 {
                                    assert(stk0[k] == t);
                                } else {
                                    assert(stk0[stk0.len() - 1] < r);
                                }
                            }
                        };
                        // every stack entry still satisfies the expansion clause
                        assert forall|k: int| 0 <= k < stack@.len() implies #[trigger] expand_ok(
                            nodes,
                            status@,
                            stack@,
                            k,
                        ) by {
                            if k == stk0.len() - 1 {
                                assert(stack@[k] == t);
                                assert(on_stack_above(stack@, k, l));
                                assert(on_stack_above(stack@, k, r));
                            } else if k < stk0.len() - 1 {
                                assert(stack@[k] == stk0[k]);
                                assert(expand_ok(nodes, st0, stk0, k));
                                if status@[stack@[k] as int] == 1 {
                                    if stack@[k] == t {
                                        // a stale copy of the node being expanded:
                                        // its children now sit on top of the stack
                                        assert(stack@[stk0.len() as int] == l);
                                        assert(stack@[stk0.len() as int + 1] == r);
                                        assert(on_stack_above(stack@, k, l));
                                        assert(on_stack_above(stack@, k, r));
                                    } else {
                                    assert(st0[stack@[k] as int] == 1);
                                    assert(pool_node_wf(nodes, dimn, stack@[k] as int));
                                    assert(status@[t as int] == 2 || on_stack_above(
                                        stack@,
                                        k,
                                        t,
                                    )) by {
                                        assert(stack@[stk0.len() - 1] == t);
                                    };
                                    match nodes[stack@[k] as int].form {
                                        Form::Add(l2, r2) => {
                                            lemma_child_ok_transfer(
                                                st0,
                                                status@,
                                                stk0,
                                                stack@,
                                                k,
                                                l2,
                                            );
                                            lemma_child_ok_transfer(
                                                st0,
                                                status@,
                                                stk0,
                                                stack@,
                                                k,
                                                r2,
                                            );
                                        },
                                        Form::Basis(_) => {},
                                    }
                                    }
                                }
                            } else {
                                assert(stack@[k] == l || stack@[k] == r);
                                assert(status@[stack@[k] as int] != 1);
                            }
                        }
                        // expanding nodes keep a master position
                        assert forall|i2: int|
                            0 <= i2 < n && #[trigger] status@[i2] == 1 implies (exists|k: int| #[trigger] is_master(stack@, k, i2 as usize)) by {
                            if i2 == t as int {
                                assert(is_master(stack@, stk0.len() - 1, t)) by {
                                    assert forall|m: int|
                                        stk0.len() - 1 < m < stack@.len() implies (
                                    #[trigger] stack@[m]) < t by {
                                        assert(stack@[m] == l || stack@[m] == r);
                                    }
                                };
                            } else {
                                assert(st0[i2] == 1);
                                let k = choose|k: int| #[trigger] is_master(stk0, k, i2 as usize);
                                assert(k < stk0.len() - 1) by {
                                    if k == stk0.len() - 1 {
                                        assert(st0[t as int] == 0);
                                    }
                                };
                                assert(stk0[stk0.len() - 1] < i2 as usize);
                                assert(is_master(stack@, k, i2 as usize)) by {
                                    assert forall|m: int| k < m < stack@.len() implies (
                                    #[trigger] stack@[m]) < i2 as usize by {
                                        if m < stk0.len() - 1 {
                                            assert(stack@[m] == stk0[m]);
                                        } else {
                                            assert(stack@[m] == t || stack@[m] == l || stack@[m]
                                                == r);
                                        }
                                    }
                                };
                            }
                        }
                        // root bookkeeping
                        if t == root {
                            assert(stk0.len() == 1) by {
                                if stk0.len() >= 2 {
                                    assert(stk0[stk0.len() - 1] < root);
                                }
                            };
                            assert(stack@[0] == t);
                        } else {
                            assert(stk0.len() >= 2) by {
                                if stk0.len() == 1 {
                                    assert(stk0[0] == root);
                                }
                            };
                            assert(stack@[0] == stk0[0]);
                            assert(t < root);
                        }
                        if root < dim {
                            assert(stk0.len() <= 1);
                            assert(stk0[0] == root);
                            assert(t == root);
                            assert(dimn <= t);
                            assert(false);
                        }
                        // the measure falls by at least one
                        assert forall|e: int| #[trigger] node_weight(nodes, status@, e)
                            <= node_weight(nodes, st0, e) by {
                            lemma_term_size_pos(nodes, e);
                        }
                        lemma_stack_measure_mono(nodes, st0, status@, stk1);
                        lemma_stack_measure_push(nodes, status@, stk1, t);
                        lemma_stack_measure_push(nodes, status@, stk1.push(t), l);
                        lemma_stack_measure_push(nodes, status@, stk1.push(t).push(l), r);
                        lemma_term_size_pos(nodes, l as int);
                        lemma_term_size_pos(nodes, r as int);
                        assert(node_weight(nodes, status@, t as int) == 2);
                        assert(node_weight(nodes, status@, l as int) <= 3 * term_size(
                            nodes,
                            l as int,
                        ));
                        assert(node_weight(nodes, status@, r as int) <= 3 * term_size(
                            nodes,
                            r as int,
                        ));
                        assert(node_weight(nodes, st0, t as int) == 3 * term_size(nodes, t as int));
                        assert(term_size(nodes, t as int) == 1 + term_size(nodes, l as int)
                            + term_size(nodes, r as int));
                    }
                },
            }
        }
    }
    proof {
        assert(status@[root as int] == 2);
        assert(labeled_ok(nodes, dimn, adds@, label_of@, root as int));
        lemma_count_bound(status@, dim as int);
        if root < dim {
        } else {
            assert(label_of@[root as int] == dim + adds@.len() - 1);
        }
    }
    adds
}


/// The entry's weighted value is the standard basis vector `e_b`.
pub open spec fn scaled_is_unit(nodes: Seq<ChainData>, x: nat, g: int, b: int) -> bool {
    forall|c: int|
        x * #[trigger] term_coord(nodes, g, c) == (if c == b {
            1nat
        } else {
            0nat
        })
}

/// Expands the one remaining `(scalar, term)` entry and linearizes the pool
/// into a chain: either the chain's last label denotes the entry's weighted
/// value, or the chain is empty and that value is a standard basis vector.
pub(crate) fn finalize(pool: &mut TermPool, e: Entry) -> (r: VecAddChain)
    requires
        old(pool).wf(),
        e.x.wf(),
        e.x@ >= 1,
        e.g < old(pool).nodes@.len(),
    ensures
        r.dimension == old(pool).dimension,
        chain_wf(r.dimension as nat, r.adds@),
        r.adds@.len() >= 1 ==> forall|c: int|
            #[trigger] label_coord(
                r.dimension as nat,
                r.adds@,
                r.dimension + r.adds@.len() - 1,
                c,
            ) == e.x@ * term_coord(old(pool).nodes@, e.g as int, c),
        r.adds@.len() == 0 ==> exists|b: int|
            0 <= b < r.dimension && #[trigger] scaled_is_unit(
                old(pool).nodes@,
                e.x@,
                e.g as int,
                b,
            ),
{
    let ghost nodes0 = pool.nodes@;
    let root = mult(pool, &e.x, e.g);
    let adds = linearize(pool, root);
    let dim = pool.dimension;
    proof {
        if adds@.len() == 0 {
            assert(root < dim);
            assert(pool_node_wf(pool.nodes@, dim as nat, root as int));
            let b = root as int;
            assert(0 <= b < dim);
            assert forall|c: int| e.x@ * #[trigger] term_coord(nodes0, e.g as int, c) == (if c
                == b {
                1nat
            } else {
                0nat
            }) by {
                assert(term_coord(pool.nodes@, root as int, c) == e.x@ * term_coord(
                    nodes0,
                    e.g as int,
                    c,
                ));
                assert(pool.nodes@[root as int].form matches Form::Basis(bb) && bb == root);
            }
            assert(scaled_is_unit(nodes0, e.x@, e.g as int, b));
        } else {
            assert(dim <= root);
        }
    }
    VecAddChain { dimension: dim, adds }
}


/// The frontier is exactly the seeding of the target: one entry per nonzero
/// coordinate `i`, holding that coordinate's value and the basis leaf `i`,
/// in index order; zero coordinates contribute no entry.
pub open spec fn seeded_frontier(target: Seq<Scalar>, es: Seq<Entry>) -> bool {
    &&& forall|k: int|
        0 <= k < es.len() ==> {
            &&& (#[trigger] es[k]).g < target.len()
            &&& es[k].x@ == target[es[k].g as int]@
            &&& target[es[k].g as int]@ != 0
        }
    &&& forall|k1: int, k2: int|
        #![trigger es[k1], es[k2]]
        0 <= k1 < k2 < es.len() ==> es[k1].g < es[k2].g
    &&& forall|i: int|
        0 <= i < target.len() && (#[trigger] target[i])@ != 0 ==> exists|k: int|
            0 <= k < es.len() && (#[trigger] es[k]).g == i
}

/// Creates a fresh pool with one basis leaf per coordinate and a frontier
/// entry for each nonzero coordinate; zero coordinates contribute nothing.
pub(crate) fn seed(target: &Vec<Scalar>) -> (r: (TermPool, Vec<Entry>))
    requires
        forall|i: int| 0 <= i < target@.len() ==> (#[trigger] target@[i]).wf(),
    ensures
        r.0.wf(),
        r.0.dimension == target@.len(),
        r.0.nodes@.len() == target@.len(),
        entries_wf(r.0.nodes@, r.1@),
        seeded_frontier(target@, r.1@),
        r.1@.len() >= 1 ==> crate::has_nonzero(target@),
        r.1@.len() == 0 ==> !crate::has_nonzero(target@),
        forall|c: int|
            0 <= c < target@.len() ==> #[trigger] entries_coord(r.0.nodes@, r.1@, c)
                == target@[c]@,
{
    let n = target.len();
    let mut pool = TermPool::new(n);
    let mut entries: Vec<Entry> = Vec::new();
    let mut i: usize = 0;
    while i < n
        invariant
            i <= n,
            n == target@.len(),
            forall|i2: int| 0 <= i2 < target@.len() ==> (#[trigger] target@[i2]).wf(),
            pool.wf(),
            pool.dimension == n,
            pool.nodes@.len() == n,
            forall|k: int|
                0 <= k < n ==> (#[trigger] pool.nodes@[k]).form == Form::Basis(k as usize),
            entries_wf(pool.nodes@, entries@),
            entries@.len() >= 1 ==> crate::has_nonzero(target@),
            forall|k: int|
                0 <= k < entries@.len() ==> {
                    &&& (#[trigger] entries@[k]).g < i
                    &&& entries@[k].x@ == target@[entries@[k].g as int]@
                    &&& target@[entries@[k].g as int]@ != 0
                },
            forall|k1: int, k2: int|
                #![trigger entries@[k1], entries@[k2]]
                0 <= k1 < k2 < entries@.len() ==> entries@[k1].g < entries@[k2].g,
            forall|i2: int|
                0 <= i2 < i && (#[trigger] target@[i2])@ != 0 ==> exists|k: int|
                    0 <= k < entries@.len() && (#[trigger] entries@[k]).g == i2,
            forall|c: int|
                0 <= c < n ==> #[trigger] entries_coord(pool.nodes@, entries@, c) == (if c < i {
                    target@[c]@
                } else {
                    0nat
                }),
        decreases n - i,
    {
        let ghost es0 = entries@;
        let zero = target[i].is_zero();
        if !zero {
            let x = target[i].duplicate();
            entries.push(Entry { x, g: i });
            proof {
                let e = entries@.last();
                assert(entries@ == es0.push(e));
                // the processed prefix grows by exactly this one entry
                assert forall|i2: int|
                    0 <= i2 < i + 1 && (#[trigger] target@[i2])@ != 0 implies exists|k: int|
                    0 <= k < entries@.len() && (#[trigger] entries@[k]).g == i2 by {
                    if i2 == i {
                        assert(entries@[entries@.len() - 1].g == i2);
                    } else {
                        let k = choose|k: int|
                            0 <= k < es0.len() && (#[trigger] es0[k]).g == i2;
                        assert(entries@[k].g == i2);
                    }
                }
                assert forall|c: int| 0 <= c < n implies #[trigger] entries_coord(
                    pool.nodes@,
                    entries@,
                    c,
                ) == (if c < i + 1 {
                    target@[c]@
                } else {
                    0nat
                }) by {
                    lemma_entries_coord_push(pool.nodes@, es0, e, c);
                    assert(pool.nodes@[i as int].form == Form::Basis(i as usize));
                    assert(term_coord(pool.nodes@, i as int, c) == (if c == i {
                        1nat
                    } else {
                        0nat
                    }));
                    if c == i {
                        assert(e.x@ * 1nat == e.x@) by (nonlinear_arith);
                    } else {
                        assert(e.x@ * 0nat == 0) by (nonlinear_arith);
                    }
                }
            }
        } else {
            proof {
                assert forall|c: int| 0 <= c < n implies #[trigger] entries_coord(
                    pool.nodes@,
                    entries@,
                    c,
                ) == (if c < i + 1 {
                    target@[c]@
                } else {
                    0nat
                }) by {
                }
            }
        }
        i = i + 1;
    }
    proof {
        if entries@.len() == 0 && crate::has_nonzero(target@) {
            let w = choose|i2: int| 0 <= i2 < target@.len() && (#[trigger] target@[i2])@ != 0;
            assert(entries_coord(pool.nodes@, entries@, w) == target@[w]@);
        }
    }
    (pool, entries)
}

/// Expands the single remaining frontier entry into the final chain; the
/// result replays to the target unless the target is a unit vector below the
/// last position, which no addition chain can denote.
pub(crate) fn finish(
    pool: &mut TermPool,
    entries: Vec<Entry>,
    Ghost(target): Ghost<Seq<Scalar>>,
) -> (r: VecAddChain)
    requires
        old(pool).wf(),
        old(pool).dimension == target.len(),
        entries@.len() == 1,
        entries_wf(old(pool).nodes@, entries@),
        forall|c: int|
            0 <= c < target.len() ==> #[trigger] entries_coord(old(pool).nodes@, entries@, c)
                == target[c]@,
    ensures
        r.dimension == target.len(),
        chain_wf(r.dimension as nat, r.adds@),
        !crate::short_unit_target(target) ==> crate::replays_to(r, target),
{
    let mut entries = entries;
    let ghost n = target.len();
    let ghost es_pre = entries@;
    let e_opt = entries.pop();
    let e = e_opt.unwrap();
    proof {
        assert(entries@.len() == 0);
        assert(es_pre =~= entries@.push(e));
        assert forall|c: int| 0 <= c < n implies e.x@ * #[trigger] term_coord(
            pool.nodes@,
            e.g as int,
            c,
        ) == target[c]@ by {
            lemma_entries_coord_push(pool.nodes@, entries@, e, c);
            assert(entries_coord(pool.nodes@, entries@, c) == 0);
            assert(entries_coord(pool.nodes@, es_pre, c) == target[c]@);
        }
    }
    let ghost pool_f = pool.nodes@;
    let chain = finalize(pool, e);
    proof {
        if chain.adds@.len() == 0 {
            let b = choose|b: int|
                0 <= b < chain.dimension && #[trigger] scaled_is_unit(
                    pool_f,
                    e.x@,
                    e.g as int,
                    b,
                );
            assert(crate::unit_target_at(target, b)) by {
                assert(e.x@ * term_coord(pool_f, e.g as int, b) == 1);
                assert forall|j: int| 0 <= j < target.len() && j != b implies (
                #[trigger] target[j])@ == 0 by {
                    assert(e.x@ * term_coord(pool_f, e.g as int, j) == 0);
                }
            };
            if b + 1 < n {
                assert(crate::short_unit_target(target));
            } else {
                assert(crate::has_nonzero(target));
                if !crate::short_unit_target(target) {
                    assert forall|c: int| 0 <= c < target.len() implies label_coord(
                        chain.dimension as nat,
                        chain.adds@,
                        chain.dimension + chain.adds@.len() - 1,
                        c,
                    ) == (#[trigger] target[c])@ by {
                        assert(e.x@ * term_coord(pool_f, e.g as int, c) == target[c]@);
                    }
                    assert(crate::replays_to(chain, target));
                }
            }
        } else {
            assert forall|c: int| 0 <= c < target.len() implies label_coord(
                chain.dimension as nat,
                chain.adds@,
                chain.dimension + chain.adds@.len() - 1,
                c,
            ) == (#[trigger] target[c])@ by {
                assert(label_coord(
                    chain.dimension as nat,
                    chain.adds@,
                    chain.dimension + chain.adds@.len() - 1,
                    c,
                ) == e.x@ * term_coord(pool_f, e.g as int, c));
            }
            assert(crate::replays_to(chain, target));
        }
    }
    chain
}

/// Builds a vector addition chain for `target` with the Single strategy: a
/// global greedy loop over a priority frontier, with full structural
/// sharing.  Replaying the resulting chain over the standard basis
/// reproduces `target` whenever the target has a nonzero coordinate and is
/// not a unit vector below the last position; the all-zero target yields an
/// empty chain.
pub fn build_chain<C: ChainCmp>(target: Vec<Scalar>) -> (r: VecAddChain)
    requires
        forall|i: int| 0 <= i < target@.len() ==> (#[trigger] target@[i]).wf(),
    ensures
        r.dimension == target@.len(),
        chain_wf(r.dimension as nat, r.adds@),
        !crate::has_nonzero(target@) ==> r.adds@.len() == 0,
        crate::has_nonzero(target@) && !crate::short_unit_target(target@) ==> crate::replays_to(
            r,
            target@,
        ),
{
    let (pool0, entries0) = seed(&target);
    let mut pool = pool0;
    let mut entries = entries0;
    let n = pool.dimension;
    if entries.len() == 0 {
        return VecAddChain { dimension: n, adds: Vec::new() };
    }
    while entries.len() > 1
        invariant
            n == target@.len(),
            pool.wf(),
            pool.dimension == n,
            pool.nodes@.len() >= n,
            entries_wf(pool.nodes@, entries@),
            entries@.len() >= 1,
            forall|c: int|
                0 <= c < n ==> #[trigger] entries_coord(pool.nodes@, entries@, c) == target@[c]@,
        decreases entries_sum(entries@),
    {
        let ghost es_a = entries@;
        let ghost pool_a = pool.nodes@;
        let first = pop_max::<C>(&pool, &mut entries);
        let ghost es_b = entries@;
        let second = pop_max::<C>(&pool, &mut entries);
        let ghost es_c = entries@;
        proof {
            let m1 = choose|m: int|
                0 <= m < es_a.len() && first == es_a[m] && es_b == es_a.remove(m);
            let m2 = choose|m: int|
                0 <= m < es_b.len() && second == es_b[m] && es_c == es_b.remove(m);
            assert forall|k: int| 0 <= k < es_c.len() implies (#[trigger] es_c[k]).x.wf()
                && es_c[k].x@ >= 1 && es_c[k].g < pool_a.len() by {
                assert(es_c[k] == es_b[if k < m2 {
                    k
                } else {
                    k + 1
                }]);
                assert(es_b[if k < m2 {
                    k
                } else {
                    k + 1
                }] == es_a[if (if k < m2 {
                    k
                } else {
                    k + 1
                }) < m1 {
                    (if k < m2 {
                        k
                    } else {
                        k + 1
                    })
                } else {
                    (if k < m2 {
                        k
                    } else {
                        k + 1
                    }) + 1
                }]);
            }
            assert(first.x.wf() && first.x@ >= 1 && first.g < pool_a.len());
            assert(second.x.wf() && second.x@ >= 1 && second.g < pool_a.len());
            assert(second.x@ <= first.x@);
            assert forall|c: int| 0 <= c < n implies #[trigger] entries_coord(pool_a, es_c, c)
                + first.x@ * term_coord(pool_a, first.g as int, c) + second.x@ * term_coord(
                pool_a,
                second.g as int,
                c,
            ) == target@[c]@ by {
                lemma_entries_coord_remove(pool_a, es_a, m1, c);
                lemma_entries_coord_remove(pool_a, es_b, m2, c);
            }
            lemma_entries_sum_remove(es_a, m1);
            lemma_entries_sum_remove(es_b, m2);
        }
        let mut first = first;
        let mut half = first.x.duplicate();
        half.div2();
        let take_half = match half.cmp_val(&second.x) {
            crate::scalar::Cmp::Greater => true,
            _ => false,
        };
        if take_half {
            let ghost x1 = first.x@;
            let odd = first.x.is_odd();
            if odd {
                // halving drops the low bit: keep the lost unit of the
                // pre-doubling term as an independent entry
                entries.push(Entry { x: Scalar::from_u64(1), g: first.g });
            }
            first.x.div2();
            let ng = pool.add(first.g, first.g);
            let ghost es_d = entries@;
            entries.push(second);
            entries.push(Entry { x: first.x, g: ng });
            proof {
                let pool_b = pool.nodes@;
                let es_new = entries@;
                let e_sec = es_new[es_new.len() - 2];
                let e_fst = es_new[es_new.len() - 1];
                assert(es_new == es_d.push(e_sec).push(e_fst));
                lemma_fundamental_div_mod(x1 as int, 2);
                // the halved coefficient stays nonzero
                assert(x1 / 2 > second.x@);
                assert(x1 / 2 >= 1);
                // the reinjected unit keeps the invariant sum exact
                assert forall|c: int| 0 <= c < n implies #[trigger] entries_coord(
                    pool_b,
                    es_new,
                    c,
                ) == target@[c]@ by {
                    let t1 = term_coord(pool_a, first.g as int, c);
                    lemma_entries_coord_prefix(pool_a, pool_b, es_c, c);
                    if odd {
                        assert(es_d == es_c.push(es_d.last()));
                        lemma_entries_coord_push(pool_a, es_c, es_d.last(), c);
                        lemma_entries_coord_prefix(pool_a, pool_b, es_d, c);
                        assert(entries_coord(pool_b, es_d, c) == entries_coord(pool_a, es_c, c)
                            + 1nat * t1);
                        assert(1nat * t1 == t1) by (nonlinear_arith);
                    } else {
                        assert(es_d == es_c);
                    }
                    lemma_entries_coord_push(pool_b, es_d, e_sec, c);
                    lemma_entries_coord_push(pool_b, es_d.push(e_sec), e_fst, c);
                    assert(term_coord(pool_b, second.g as int, c) == term_coord(
                        pool_a,
                        second.g as int,
                        c,
                    ));
                    assert(term_coord(pool_b, ng as int, c) == t1 + t1);
                    assert((x1 / 2) * (t1 + t1) == (x1 - x1 % 2) * t1) by (nonlinear_arith)
                        requires x1 == 2 * (x1 / 2) + x1 % 2,
                    ;
                    if odd {
                        assert((x1 - x1 % 2) * t1 == x1 * t1 - t1) by (nonlinear_arith)
                            requires x1 >= 1, x1 % 2 == 1,
                        ;
                    } else {
                        assert((x1 - x1 % 2) * t1 == x1 * t1) by (nonlinear_arith)
                            requires x1 % 2 == 0,
                        ;
                    }
                }
                // the coefficient sum strictly falls
                lemma_entries_sum_push(es_d, e_sec);
                lemma_entries_sum_push(es_d.push(e_sec), e_fst);
                if odd {
                    assert(es_d == es_c.push(es_d.last()));
                    lemma_entries_sum_push(es_c, es_d.last());
                }
                assert(entries_sum(es_new) < entries_sum(es_a));
            }
        } else {
            let ghost x1 = first.x@;
            first.x.sub_noborrow(&second.x);
            let ng = pool.add(first.g, second.g);
            let ghost es_d = entries@;
            entries.push(Entry { x: second.x, g: ng });
            let keep = !first.x.is_zero();
            if keep {
                entries.push(first);
            }
            proof {
                let pool_b = pool.nodes@;
                let es_new = entries@;
                assert(es_d == es_c);
                assert forall|c: int| 0 <= c < n implies #[trigger] entries_coord(
                    pool_b,
                    es_new,
                    c,
                ) == target@[c]@ by {
                    let t1 = term_coord(pool_a, first.g as int, c);
                    let t2 = term_coord(pool_a, second.g as int, c);
                    lemma_entries_coord_prefix(pool_a, pool_b, es_c, c);
                    let em = es_new[es_c.len() as int];
                    lemma_entries_coord_push(pool_b, es_c, em, c);
                    assert(term_coord(pool_b, ng as int, c) == t1 + t2);
                    if keep {
                        let ef = es_new.last();
                        assert(es_new == es_c.push(em).push(ef));
                        lemma_entries_coord_push(pool_b, es_c.push(em), ef, c);
                        assert(term_coord(pool_b, ef.g as int, c) == t1);
                        assert((x1 - second.x@) * t1 + second.x@ * (t1 + t2) == x1 * t1
                            + second.x@ * t2) by (nonlinear_arith)
                            requires second.x@ <= x1,
                        ;
                    } else {
                        assert(es_new == es_c.push(em));
                        assert(x1 == second.x@);
                        assert(second.x@ * (t1 + t2) == x1 * t1 + second.x@ * t2)
                            by (nonlinear_arith)
                            requires x1 == second.x@,
                        ;
                    }
                }
                // the coefficient sum falls by the subtracted amount
                let em = es_new[es_c.len() as int];
                lemma_entries_sum_push(es_c, em);
                if keep {
                    lemma_entries_sum_push(es_c.push(em), es_new.last());
                }
                assert(entries_sum(es_new) < entries_sum(es_a));
            }
        }
    }
    finish(&mut pool, entries, Ghost(target@))
}

} // verus!

//! The greatest lower bound of two trees: their information union.
//!
//! `A.greatest_lower_bound(B)` builds the smallest tree that contains at
//! least as much information as both `A` and `B`, pairing the two trees
//! from their roots: common non-exclusive successors are merged,
//! one-sided subtrees cloned, equal exclusive successors kept exclusive,
//! and an exclusive edge meets a non-exclusive one only when the latter
//! lists exactly the exclusive successor.  Incompatible trees have no
//! lower bound.

use vstd::prelude::*;
use crate::rellcore::{SID, NID, RellE, RellN};
use crate::tree::RellTree;
use crate::tree_traits::spec_dominates;
use crate::sid::sid_of;
use crate::vecmap::VecMap;

verus! {

/// Structural well-formedness of a tree arena, without requiring the
/// symbol table to cover the node symbols yet (a tree under
/// construction interns its symbols at the end).
pub open spec fn arena_wf(t: RellTree) -> bool {
    &&& t.symbols.wf()
    &&& 1 <= t.nodes@.len() < usize::MAX
    &&& t.spec_node(1).edge is NonExclusive
    &&& t.spec_node(1).sym == sid_of("ROOT"@)
    &&& forall|i: int| 0 <= i < t.nodes@.len() ==> t.node_wf(#[trigger] t.nodes@[i], i)
}

/// Whether the subtrees at the paired nodes admit a common lower bound:
/// equal exclusive successors, or an exclusive edge against a
/// non-exclusive edge listing exactly that successor; a leaf is
/// compatible with anything; common non-exclusive successors must be
/// compatible in turn.
pub open spec fn spec_glb_compatible(a: RellTree, a_nid: NID, b: RellTree, b_nid: NID) -> bool
    decreases (a.nodes@.len() - a_nid) + (b.nodes@.len() - b_nid),
{
    if !a.valid_nid(a_nid) || !b.valid_nid(b_nid) {
        true
    } else {
        let ae = a.spec_node(a_nid).edge;
        let be = b.spec_node(b_nid).edge;
        match (ae, be) {
            (RellE::NonExclusive(am), RellE::NonExclusive(bm)) => forall|s: SID|
                #![trigger am.to_map().dom().contains(s), bm.to_map().dom().contains(s)]
                (am.to_map().dom().contains(s) && bm.to_map().dom().contains(s)) ==> {
                    let ac = am.to_map()[s];
                    let bc = bm.to_map()[s];
                    (a_nid < ac <= a.nodes@.len() && b_nid < bc <= b.nodes@.len())
                        ==> spec_glb_compatible(a, ac, b, bc)
                },
            (RellE::Exclusive(as_, an), RellE::Exclusive(bs, bn)) => as_ == bs && ((a_nid < an
                <= a.nodes@.len() && b_nid < bn <= b.nodes@.len()) ==> spec_glb_compatible(
                a,
                an,
                b,
                bn,
            )),
            (RellE::Exclusive(as_, an), RellE::NonExclusive(bm)) => bm.to_map().dom().contains(as_)
                && (forall|s: SID| #[trigger] bm.to_map().dom().contains(s) ==> s == as_) && {
                let bc = bm.to_map()[as_];
                (a_nid < an <= a.nodes@.len() && b_nid < bc <= b.nodes@.len())
                    ==> spec_glb_compatible(a, an, b, bc)
            },
            (RellE::NonExclusive(am), RellE::Exclusive(bs, bn)) => am.to_map().dom().contains(bs)
                && (forall|s: SID| #[trigger] am.to_map().dom().contains(s) ==> s == bs) && {
                let ac = am.to_map()[bs];
                (a_nid < ac <= a.nodes@.len() && b_nid < bn <= b.nodes@.len())
                    ==> spec_glb_compatible(a, ac, b, bn)
            },
            (RellE::Empty, _) => true,
            (_, RellE::Empty) => true,
        }
    }
}

/// Compatibility is symmetric in its two trees.
pub proof fn lemma_glb_compatible_sym(a: RellTree, a_nid: NID, b: RellTree, b_nid: NID)
    ensures
        spec_glb_compatible(a, a_nid, b, b_nid) == spec_glb_compatible(b, b_nid, a, a_nid),
    decreases (a.nodes@.len() - a_nid) + (b.nodes@.len() - b_nid),
{
    if !a.valid_nid(a_nid) || !b.valid_nid(b_nid) {
    } else {
        let ae = a.spec_node(a_nid).edge;
        let be = b.spec_node(b_nid).edge;
        match (ae, be) {
            (RellE::NonExclusive(am), RellE::NonExclusive(bm)) => {
                assert forall|s: SID|
                    #![trigger am.to_map().dom().contains(s), bm.to_map().dom().contains(s)]
                    (am.to_map().dom().contains(s) && bm.to_map().dom().contains(s)) implies ((
                {
                    let ac = am.to_map()[s];
                    let bc = bm.to_map()[s];
                    (a_nid < ac <= a.nodes@.len() && b_nid < bc <= b.nodes@.len())
                        ==> spec_glb_compatible(a, ac, b, bc)
                }) == ({
                    let bc = bm.to_map()[s];
                    let ac = am.to_map()[s];
                    (b_nid < bc <= b.nodes@.len() && a_nid < ac <= a.nodes@.len())
                        ==> spec_glb_compatible(b, bc, a, ac)
                })) by {
                    let ac = am.to_map()[s];
                    let bc = bm.to_map()[s];
                    if a_nid < ac <= a.nodes@.len() && b_nid < bc <= b.nodes@.len() {
                        lemma_glb_compatible_sym(a, ac, b, bc);
                    }
                }
            },
            (RellE::Exclusive(as_, an), RellE::Exclusive(bs, bn)) => {
                if as_ == bs && a_nid < an <= a.nodes@.len() && b_nid < bn <= b.nodes@.len() {
                    lemma_glb_compatible_sym(a, an, b, bn);
                }
            },
            (RellE::Exclusive(as_, an), RellE::NonExclusive(bm)) => {
                if bm.to_map().dom().contains(as_) {
                    let bc = bm.to_map()[as_];
                    if a_nid < an <= a.nodes@.len() && b_nid < bc <= b.nodes@.len() {
                        lemma_glb_compatible_sym(a, an, b, bc);
                    }
                }
            },
            (RellE::NonExclusive(am), RellE::Exclusive(bs, bn)) => {
                if am.to_map().dom().contains(bs) {
                    let ac = am.to_map()[bs];
                    if a_nid < ac <= a.nodes@.len() && b_nid < bn <= b.nodes@.len() {
                        lemma_glb_compatible_sym(a, ac, b, bn);
                    }
                }
            },
            _ => {},
        }
    }
}

/// Domination is stable under extending the dominating tree, as long as
/// the nodes from the dominating position onward are untouched: the walk
/// never leaves that region.
pub proof fn lemma_dominates_frame(c1: RellTree, c2: RellTree, x: NID, a: RellTree, y: NID)
    requires
        spec_dominates(c1, x, a, y),
        arena_wf(c1),
        c2.nodes@.len() >= c1.nodes@.len(),
        forall|j: int| x - 1 <= j < c1.nodes@.len() ==> c2.nodes@[j] == c1.nodes@[j],
    ensures
        spec_dominates(c2, x, a, y),
    decreases a.nodes@.len() - y,
{
    assert(c1.valid_nid(x) && a.valid_nid(y));
    assert(c2.spec_node(x) == c1.spec_node(x));
    assert(c1.node_wf(c1.nodes@[x - 1], x - 1));
    let ce = c1.spec_node(x).edge;
    let ae = a.spec_node(y).edge;
    match (ae, ce) {
        (RellE::NonExclusive(am), RellE::NonExclusive(cm)) => {
            assert forall|s: SID| #[trigger] am.to_map().dom().contains(s) implies cm.to_map(
            ).dom().contains(s) && {
                let ac = am.to_map()[s];
                y < ac <= a.nodes@.len() && spec_dominates(c2, cm.to_map()[s], a, ac)
            } by {
                assert(c1.spec_node(x).edge.targets().dom().contains(s));
                assert(c1.spec_node(x).edge.targets()[s] == cm.to_map()[s]);
                assert(x < cm.to_map()[s] <= c1.nodes@.len());
                lemma_dominates_frame(c1, c2, cm.to_map()[s], a, am.to_map()[s]);
            }
        },
        (RellE::Exclusive(as_, an), RellE::Exclusive(cs, cn)) => {
            assert(c1.spec_node(x).edge.targets().dom().contains(cs));
            assert(c1.spec_node(x).edge.targets()[cs] == cn);
            lemma_dominates_frame(c1, c2, cn, a, an);
        },
        (RellE::NonExclusive(am), RellE::Exclusive(cs, cn)) => {
            assert(c1.spec_node(x).edge.targets().dom().contains(cs));
            assert(c1.spec_node(x).edge.targets()[cs] == cn);
            lemma_dominates_frame(c1, c2, cn, a, am.to_map()[cs]);
        },
        (RellE::Empty, _) => {},
        _ => {
            assert(false);
        },
    }
}

/// The number of nodes in the subtree rooted at `nid` (out-of-arena
/// references count nothing).
pub open spec fn subtree_size(t: RellTree, nid: NID) -> int
    decreases t.nodes@.len() - nid, 1int, 0int,
{
    if !t.valid_nid(nid) {
        0
    } else {
        match t.spec_node(nid).edge {
            RellE::Empty => 1,
            RellE::Exclusive(s, n2) => 1 + if nid < n2 <= t.nodes@.len() {
                subtree_size(t, n2)
            } else {
                0
            },
            RellE::NonExclusive(m) => 1 + subtree_sizes(t, nid, m.entries@, m.entries@.len() as int),
        }
    }
}

/// The total size of the subtrees under the first `j` listed successors.
pub open spec fn subtree_sizes(t: RellTree, nid: NID, entries: Seq<(SID, NID)>, j: int) -> int
    decreases t.nodes@.len() - nid, 0int, j,
{
    if j <= 0 || j > entries.len() {
        0
    } else {
        (if nid < entries[j - 1].1 <= t.nodes@.len() {
            subtree_size(t, entries[j - 1].1)
        } else {
            0
        }) + subtree_sizes(t, nid, entries, j - 1)
    }
}

pub proof fn lemma_subtree_size_nonneg(t: RellTree, nid: NID)
    ensures
        subtree_size(t, nid) >= 0,
        t.valid_nid(nid) ==> subtree_size(t, nid) >= 1,
    decreases t.nodes@.len() - nid, 1int, 0int,
{
    if t.valid_nid(nid) {
        match t.spec_node(nid).edge {
            RellE::Empty => {},
            RellE::Exclusive(s, n2) => {
                if nid < n2 <= t.nodes@.len() {
                    lemma_subtree_size_nonneg(t, n2);
                }
            },
            RellE::NonExclusive(m) => {
                lemma_subtree_sizes_nonneg(t, nid, m.entries@, m.entries@.len() as int);
            },
        }
    }
}

pub proof fn lemma_subtree_sizes_nonneg(t: RellTree, nid: NID, entries: Seq<(SID, NID)>, j: int)
    ensures
        subtree_sizes(t, nid, entries, j) >= 0,
    decreases t.nodes@.len() - nid, 0int, j,
{
    if j <= 0 || j > entries.len() {
    } else {
        if nid < entries[j - 1].1 <= t.nodes@.len() {
            lemma_subtree_size_nonneg(t, entries[j - 1].1);
        }
        lemma_subtree_sizes_nonneg(t, nid, entries, j - 1);
    }
}

/// Partial successor-size sums grow with the number of successors taken.
pub proof fn lemma_subtree_sizes_mono(
    t: RellTree,
    nid: NID,
    entries: Seq<(SID, NID)>,
    j1: int,
    j2: int,
)
    requires
        j1 <= j2,
        j2 <= entries.len(),
    ensures
        subtree_sizes(t, nid, entries, j1) <= subtree_sizes(t, nid, entries, j2),
    decreases j2 - j1,
{
    if j1 < j2 {
        lemma_subtree_sizes_mono(t, nid, entries, j1, j2 - 1);
        if !(j2 <= 0 || j2 > entries.len()) {
            if nid < entries[j2 - 1].1 <= t.nodes@.len() {
                lemma_subtree_size_nonneg(t, entries[j2 - 1].1);
            }
        } else {
            lemma_subtree_sizes_nonneg(t, nid, entries, j1);
        }
    }
}

/// The node budget of the pairing of two subtrees: an upper bound on the
/// nodes the information union of the pair allocates.
pub open spec fn pair_budget(a: RellTree, a_nid: NID, b: RellTree, b_nid: NID) -> int
    decreases (a.nodes@.len() - a_nid) + (b.nodes@.len() - b_nid), 1int, 0int,
{
    if !a.valid_nid(a_nid) || !b.valid_nid(b_nid) {
        0
    } else {
        match (a.spec_node(a_nid).edge, b.spec_node(b_nid).edge) {
            (RellE::NonExclusive(am), RellE::NonExclusive(bm)) => pair_budget_a(
                a,
                a_nid,
                b,
                b_nid,
                am.entries@,
                bm,
                am.entries@.len() as int,
            ) + pair_budget_b(b, b_nid, am, bm.entries@, bm.entries@.len() as int),
            (RellE::Exclusive(as_, an), RellE::Exclusive(bs, bn)) => if as_ == bs && a_nid < an
                <= a.nodes@.len() && b_nid < bn <= b.nodes@.len() {
                1 + pair_budget(a, an, b, bn)
            } else {
                0
            },
            (RellE::Exclusive(as_, an), RellE::NonExclusive(bm)) => if bm.to_map().dom().contains(
                as_,
            ) && a_nid < an <= a.nodes@.len() && b_nid < bm.to_map()[as_] <= b.nodes@.len() {
                1 + pair_budget(a, an, b, bm.to_map()[as_])
            } else {
                0
            },
            (RellE::NonExclusive(am), RellE::Exclusive(bs, bn)) => if am.to_map().dom().contains(
                bs,
            ) && a_nid < am.to_map()[bs] <= a.nodes@.len() && b_nid < bn <= b.nodes@.len() {
                1 + pair_budget(a, am.to_map()[bs], b, bn)
            } else {
                0
            },
            (RellE::Empty, _) => subtree_size(b, b_nid),
            (_, RellE::Empty) => subtree_size(a, a_nid),
        }
    }
}

/// The budget of the first `j` successors of the first operand: a merged
/// pair for a successor the second operand shares, a whole-subtree clone
/// for one it lacks.
pub open spec fn pair_budget_a(
    a: RellTree,
    a_nid: NID,
    b: RellTree,
    b_nid: NID,
    entries: Seq<(SID, NID)>,
    bm: VecMap<NID>,
    j: int,
) -> int
    decreases (a.nodes@.len() - a_nid) + (b.nodes@.len() - b_nid), 0int, j,
{
    if j <= 0 || j > entries.len() {
        0
    } else {
        let s = entries[j - 1].0;
        let ac = entries[j - 1].1;
        (if a_nid < ac <= a.nodes@.len() {
            if bm.to_map().dom().contains(s) {
                if b_nid < bm.to_map()[s] <= b.nodes@.len() {
                    1 + pair_budget(a, ac, b, bm.to_map()[s])
                } else {
                    1
                }
            } else {
                subtree_size(a, ac)
            }
        } else {
            0
        }) + pair_budget_a(a, a_nid, b, b_nid, entries, bm, j - 1)
    }
}

/// The budget of the first `j` successors of the second operand that the
/// first lacks: each is a whole-subtree clone.
pub open spec fn pair_budget_b(
    b: RellTree,
    b_nid: NID,
    am: VecMap<NID>,
    entries: Seq<(SID, NID)>,
    j: int,
) -> int
    decreases j,
{
    if j <= 0 || j > entries.len() {
        0
    } else {
        (if !am.to_map().dom().contains(entries[j - 1].0) && b_nid < entries[j - 1].1
            <= b.nodes@.len() {
            subtree_size(b, entries[j - 1].1)
        } else {
            0
        }) + pair_budget_b(b, b_nid, am, entries, j - 1)
    }
}

pub proof fn lemma_pair_budget_nonneg(a: RellTree, a_nid: NID, b: RellTree, b_nid: NID)
    ensures
        pair_budget(a, a_nid, b, b_nid) >= 0,
    decreases (a.nodes@.len() - a_nid) + (b.nodes@.len() - b_nid), 1int, 0int,
{
    if !a.valid_nid(a_nid) || !b.valid_nid(b_nid) {
    } else {
        match (a.spec_node(a_nid).edge, b.spec_node(b_nid).edge) {
            (RellE::NonExclusive(am), RellE::NonExclusive(bm)) => {
                lemma_pair_budget_a_nonneg(
                    a,
                    a_nid,
                    b,
                    b_nid,
                    am.entries@,
                    bm,
                    am.entries@.len() as int,
                );
                lemma_pair_budget_b_nonneg(b, b_nid, am, bm.entries@, bm.entries@.len() as int);
            },
            (RellE::Exclusive(as_, an), RellE::Exclusive(bs, bn)) => {
                if as_ == bs && a_nid < an <= a.nodes@.len() && b_nid < bn <= b.nodes@.len() {
                    lemma_pair_budget_nonneg(a, an, b, bn);
                }
            },
            (RellE::Exclusive(as_, an), RellE::NonExclusive(bm)) => {
                if bm.to_map().dom().contains(as_) && a_nid < an <= a.nodes@.len() && b_nid
                    < bm.to_map()[as_] <= b.nodes@.len() {
                    lemma_pair_budget_nonneg(a, an, b, bm.to_map()[as_]);
                }
            },
            (RellE::NonExclusive(am), RellE::Exclusive(bs, bn)) => {
                if am.to_map().dom().contains(bs) && a_nid < am.to_map()[bs] <= a.nodes@.len()
                    && b_nid < bn <= b.nodes@.len() {
                    lemma_pair_budget_nonneg(a, am.to_map()[bs], b, bn);
                }
            },
            (RellE::Empty, _) => {
                lemma_subtree_size_nonneg(b, b_nid);
            },
            (_, RellE::Empty) => {
                lemma_subtree_size_nonneg(a, a_nid);
            },
        }
    }
}

pub proof fn lemma_pair_budget_a_nonneg(
    a: RellTree,
    a_nid: NID,
    b: RellTree,
    b_nid: NID,
    entries: Seq<(SID, NID)>,
    bm: VecMap<NID>,
    j: int,
)
    ensures
        pair_budget_a(a, a_nid, b, b_nid, entries, bm, j) >= 0,
    decreases (a.nodes@.len() - a_nid) + (b.nodes@.len() - b_nid), 0int, j,
{
    if j <= 0 || j > entries.len() {
    } else {
        let s = entries[j - 1].0;
        let ac = entries[j - 1].1;
        if a_nid < ac <= a.nodes@.len() {
            if bm.to_map().dom().contains(s) {
                if b_nid < bm.to_map()[s] <= b.nodes@.len() {
                    lemma_pair_budget_nonneg(a, ac, b, bm.to_map()[s]);
                }
            } else {
                lemma_subtree_size_nonneg(a, ac);
            }
        }
        lemma_pair_budget_a_nonneg(a, a_nid, b, b_nid, entries, bm, j - 1);
    }
}

pub proof fn lemma_pair_budget_b_nonneg(
    b: RellTree,
    b_nid: NID,
    am: VecMap<NID>,
    entries: Seq<(SID, NID)>,
    j: int,
)
    ensures
        pair_budget_b(b, b_nid, am, entries, j) >= 0,
    decreases j,
{
    if j <= 0 || j > entries.len() {
    } else {
        if !am.to_map().dom().contains(entries[j - 1].0) && b_nid < entries[j - 1].1
            <= b.nodes@.len() {
            lemma_subtree_size_nonneg(b, entries[j - 1].1);
        }
        lemma_pair_budget_b_nonneg(b, b_nid, am, entries, j - 1);
    }
}

/// Partial first-operand budgets grow with the successors taken.
pub proof fn lemma_pair_budget_a_mono(
    a: RellTree,
    a_nid: NID,
    b: RellTree,
    b_nid: NID,
    entries: Seq<(SID, NID)>,
    bm: VecMap<NID>,
    j1: int,
    j2: int,
)
    requires
        j1 <= j2,
        j2 <= entries.len(),
    ensures
        pair_budget_a(a, a_nid, b, b_nid, entries, bm, j1) <= pair_budget_a(
            a,
            a_nid,
            b,
            b_nid,
            entries,
            bm,
            j2,
        ),
    decreases j2 - j1,
{
    if j1 < j2 {
        lemma_pair_budget_a_mono(a, a_nid, b, b_nid, entries, bm, j1, j2 - 1);
        if !(j2 <= 0 || j2 > entries.len()) {
            let s = entries[j2 - 1].0;
            let ac = entries[j2 - 1].1;
            if a_nid < ac <= a.nodes@.len() {
                if bm.to_map().dom().contains(s) {
                    if b_nid < bm.to_map()[s] <= b.nodes@.len() {
                        lemma_pair_budget_nonneg(a, ac, b, bm.to_map()[s]);
                    }
                } else {
                    lemma_subtree_size_nonneg(a, ac);
                }
            }
        }
    }
}

/// Partial second-operand budgets grow with the successors taken.
pub proof fn lemma_pair_budget_b_mono(
    b: RellTree,
    b_nid: NID,
    am: VecMap<NID>,
    entries: Seq<(SID, NID)>,
    j1: int,
    j2: int,
)
    requires
        j1 <= j2,
        j2 <= entries.len(),
    ensures
        pair_budget_b(b, b_nid, am, entries, j1) <= pair_budget_b(b, b_nid, am, entries, j2),
    decreases j2 - j1,
{
    if j1 < j2 {
        lemma_pair_budget_b_mono(b, b_nid, am, entries, j1, j2 - 1);
        if !(j2 <= 0 || j2 > entries.len()) {
            if !am.to_map().dom().contains(entries[j2 - 1].0) && b_nid < entries[j2 - 1].1
                <= b.nodes@.len() {
                lemma_subtree_size_nonneg(b, entries[j2 - 1].1);
            }
        }
    }
}

/// Two information unions of the same two operands — as
/// `a.greatest_lower_bound(&b)` and `b.greatest_lower_bound(&a)` each
/// ensure of their results — carry the same information: each dominates
/// the other.  This is equality up to NID renaming, stated over
/// information content.
pub proof fn lemma_glb_exchange(a: RellTree, b: RellTree, c1: RellTree, c2: RellTree)
    requires
        spec_dominates(c1, 1, a, 1),
        spec_dominates(c1, 1, b, 1),
        spec_dominates(c2, 1, a, 1),
        spec_dominates(c2, 1, b, 1),
        forall|d: RellTree, dn: NID|
            #[trigger] spec_dominates(d, dn, a, 1) && #[trigger] spec_dominates(d, dn, b, 1)
                ==> spec_dominates(d, dn, c1, 1),
        forall|d: RellTree, dn: NID|
            #[trigger] spec_dominates(d, dn, a, 1) && #[trigger] spec_dominates(d, dn, b, 1)
                ==> spec_dominates(d, dn, c2, 1),
    ensures
        spec_dominates(c1, 1, c2, 1),
        spec_dominates(c2, 1, c1, 1),
{
}

/// Domination is also stable under extending the dominated tree, as
/// long as the nodes from the dominated position onward are untouched:
/// the walk reads only that region of the weak side.
pub proof fn lemma_dominates_weak_frame(d: RellTree, x: NID, c1: RellTree, c2: RellTree, y: NID)
    requires
        spec_dominates(d, x, c1, y),
        arena_wf(c1),
        c2.nodes@.len() >= c1.nodes@.len(),
        forall|j: int| y - 1 <= j < c1.nodes@.len() ==> c2.nodes@[j] == c1.nodes@[j],
    ensures
        spec_dominates(d, x, c2, y),
    decreases c1.nodes@.len() - y,
{
    assert(d.valid_nid(x) && c1.valid_nid(y));
    assert(c2.spec_node(y) == c1.spec_node(y));
    assert(c1.node_wf(c1.nodes@[y - 1], y - 1));
    let de = d.spec_node(x).edge;
    let ce = c1.spec_node(y).edge;
    match (ce, de) {
        (RellE::NonExclusive(cm), RellE::NonExclusive(dm)) => {
            assert forall|s: SID| #[trigger] cm.to_map().dom().contains(s) implies dm.to_map(
            ).dom().contains(s) && {
                let cc = cm.to_map()[s];
                y < cc <= c2.nodes@.len() && spec_dominates(d, dm.to_map()[s], c2, cc)
            } by {
                assert(c1.spec_node(y).edge.targets().dom().contains(s));
                assert(c1.spec_node(y).edge.targets()[s] == cm.to_map()[s]);
                assert(y < cm.to_map()[s] <= c1.nodes@.len());
                lemma_dominates_weak_frame(d, dm.to_map()[s], c1, c2, cm.to_map()[s]);
            }
        },
        (RellE::Exclusive(cs, cn), RellE::Exclusive(ds, dn)) => {
            assert(c1.spec_node(y).edge.targets().dom().contains(cs));
            assert(c1.spec_node(y).edge.targets()[cs] == cn);
            lemma_dominates_weak_frame(d, dn, c1, c2, cn);
        },
        (RellE::NonExclusive(cm), RellE::Exclusive(ds, dn)) => {
            assert(c1.spec_node(y).edge.targets().dom().contains(ds));
            assert(c1.spec_node(y).edge.targets()[ds] == cm.to_map()[ds]);
            lemma_dominates_weak_frame(d, dn, c1, c2, cm.to_map()[ds]);
        },
        (RellE::Empty, _) => {},
        _ => {
            assert(false);
        },
    }
}

impl RellTree {
    /// Appends a fresh node carrying `sym` under the node `into`:
    /// exclusively (committing an empty edge) or non-exclusively (adding
    /// to the edge map).  `None` when the arena is full.
    fn insert_into(&mut self, into: NID, sym: SID, exclusive: bool) -> (r: Option<NID>)
        requires
            arena_wf(*old(self)),
            old(self).valid_nid(into),
            exclusive ==> old(self).spec_node(into).edge is Empty,
            !exclusive ==> (old(self).spec_node(into).edge is Empty || old(self).spec_node(
                into,
            ).edge is NonExclusive),
        ensures
            final(self).symbols == old(self).symbols,
            r is None ==> (*final(self) == *old(self) && old(self).nodes@.len() >= usize::MAX - 1),
            r matches Some(new) ==> ({
                &&& new == old(self).nodes@.len() + 1
                &&& arena_wf(*final(self))
                &&& final(self).nodes@.len() == old(self).nodes@.len() + 1
                &&& forall|j: int|
                    0 <= j < old(self).nodes@.len() && j != into - 1 ==> final(self).nodes@[j]
                        == old(self).nodes@[j]
                &&& final(self).nodes@[into - 1].sym == old(self).nodes@[into - 1].sym
                &&& final(self).nodes@[new - 1] == (RellN { edge: RellE::Empty, sym })
                &&& (exclusive ==> final(self).spec_node(into).edge == RellE::Exclusive(sym, new))
                &&& (!exclusive ==> final(self).spec_node(into).edge is NonExclusive && final(self).spec_node(into).edge.targets() == (if old(self).spec_node(
                    into,
                ).edge is NonExclusive {
                    old(self).spec_node(into).edge.targets()
                } else {
                    Map::<SID, NID>::empty()
                }).insert(sym, new))
            }),
    {
        if self.nodes.len() >= usize::MAX - 1 {
            return None;
        }
        let new: NID = self.nodes.len() + 1;
        self.nodes.push(RellN { edge: RellE::Empty, sym });
        let node = &mut self.nodes[into - 1];
        if exclusive {
            node.edge = RellE::Exclusive(sym, new);
        } else {
            match &mut node.edge {
                RellE::Empty => {
                    let mut mm: VecMap<NID> = VecMap::new();
                    mm.insert(sym, new);
                    node.edge = RellE::NonExclusive(mm);
                },
                RellE::NonExclusive(mm) => {
                    mm.insert(sym, new);
                },
                RellE::Exclusive(_, _) => {
                    proof {
                        assert(false);
                    }
                },
            }
        }
        proof {
            lemma_arena_wf_after_insert(*old(self), *self, into, sym, new);
        }
        Some(new)
    }

    /// Commits an empty edge to the non-exclusive kind, with no
    /// successors yet.
    fn ensure_nonex(&mut self, nid: NID)
        requires
            arena_wf(*old(self)),
            old(self).valid_nid(nid),
            old(self).spec_node(nid).edge is Empty || old(self).spec_node(
                nid,
            ).edge is NonExclusive,
        ensures
            final(self).symbols == old(self).symbols,
            final(self).nodes@.len() == old(self).nodes@.len(),
            forall|j: int|
                0 <= j < old(self).nodes@.len() && j != nid - 1 ==> final(self).nodes@[j] == old(self).nodes@[j],
            final(self).nodes@[nid - 1].sym == old(self).nodes@[nid - 1].sym,
            final(self).spec_node(nid).edge is NonExclusive,
            final(self).spec_node(nid).edge.targets() == (if old(self).spec_node(
                nid,
            ).edge is NonExclusive {
                old(self).spec_node(nid).edge.targets()
            } else {
                Map::<SID, NID>::empty()
            }),
            arena_wf(*final(self)),
    {
        let node = &mut self.nodes[nid - 1];
        if matches!(node.edge, RellE::Empty) {
            node.edge = RellE::NonExclusive(VecMap::new());
        }
        proof {
            assert forall|i: int| 0 <= i < self.nodes@.len() implies self.node_wf(
                #[trigger] self.nodes@[i],
                i,
            ) by {
                assert(old(self).node_wf(old(self).nodes@[i], i));
                assert forall|s: SID|
                    self.nodes@[i].edge.targets().dom().contains(s) implies i + 1 < (
                #[trigger] self.nodes@[i].edge.targets()[s]) <= self.nodes@.len()
                    && self.nodes@[self.nodes@[i].edge.targets()[s] - 1].sym == s by {
                    assert(self.nodes@[i].edge.targets() == old(self).nodes@[i].edge.targets());
                    assert(old(self).nodes@[i].edge.targets().dom().contains(s));
                }
            }
        }
    }
}

impl RellTree {
    /// Clones the whole subtree of `src` rooted at `from` into this
    /// arena, attached under `into` with the given attachment kind;
    /// edge kinds inside the subtree are preserved.  `false` when the
    /// arena is full.
    #[verifier::loop_isolation(false)]
    #[verifier::rlimit(60)]
    fn clone_subgraph_into(&mut self, into: NID, src: &RellTree, from: NID, exclusive: bool) -> (ok:
        bool)
        requires
            src.wf(),
            src.valid_nid(from),
            arena_wf(*old(self)),
            old(self).valid_nid(into),
            exclusive ==> old(self).spec_node(into).edge is Empty,
            !exclusive ==> (old(self).spec_node(into).edge is Empty || old(self).spec_node(
                into,
            ).edge is NonExclusive),
        ensures
            final(self).symbols == old(self).symbols,
            final(self).nodes@.len() <= old(self).nodes@.len() + subtree_size(*src, from),
            !ok ==> final(self).nodes@.len() >= usize::MAX - 1,
            ok ==> ({
                let new_root = (old(self).nodes@.len() + 1) as NID;
                &&& arena_wf(*final(self))
                &&& final(self).nodes@.len() > old(self).nodes@.len()
                &&& forall|j: int|
                    0 <= j < old(self).nodes@.len() && j != into - 1 ==> final(self).nodes@[j]
                        == old(self).nodes@[j]
                &&& final(self).nodes@[into - 1].sym == old(self).nodes@[into - 1].sym
                &&& final(self).nodes@[new_root - 1].sym == src.spec_node(from).sym
                &&& (exclusive ==> final(self).spec_node(into).edge == RellE::Exclusive(
                    src.spec_node(from).sym,
                    new_root,
                ))
                &&& (!exclusive ==> final(self).spec_node(into).edge is NonExclusive && final(self).spec_node(into).edge.targets() == (if old(self).spec_node(
                    into,
                ).edge is NonExclusive {
                    old(self).spec_node(into).edge.targets()
                } else {
                    Map::<SID, NID>::empty()
                }).insert(src.spec_node(from).sym, new_root))
                &&& spec_dominates(*final(self), new_root, *src, from)
                &&& forall|d: RellTree, dn: NID|
                    #[trigger] spec_dominates(d, dn, *src, from) ==> spec_dominates(
                        d,
                        dn,
                        *final(self),
                        new_root,
                    )
                &&& forall|j: int|
                    old(self).nodes@.len() <= j < final(self).nodes@.len()
                        ==> src.symbols.base_v().dom().contains(
                        (#[trigger] final(self).nodes@[j]).sym,
                    )
            }),
        decreases src.nodes@.len() - from,
    {
        let src_node = &src.nodes[from - 1];
        proof {
            lemma_subtree_size_nonneg(*src, from);
        }
        let new_root = match self.insert_into(into, src_node.sym, exclusive) {
            Some(n) => n,
            None => {
                return false;
            },
        };
        proof {
            assert(src.node_wf(src.nodes@[from - 1], from - 1));
            assert(src.wf());
            assert(src.symbols.base_v().dom().contains(src.nodes@[from - 1].sym));
        }
        match &src_node.edge {
            RellE::Empty => {
                proof {
                    assert(spec_dominates(*self, new_root, *src, from));
                    assert forall|d: RellTree, dn: NID|
                        #[trigger] spec_dominates(d, dn, *src, from) implies spec_dominates(
                        d,
                        dn,
                        *self,
                        new_root,
                    ) by {
                        assert(self.spec_node(new_root).edge is Empty);
                    }
                }
                true
            },
            RellE::Exclusive(_, child) => {
                proof {
                    let s0 = src.spec_node(from).edge->Exclusive_0;
                    assert(src.spec_node(from).edge.targets().dom().contains(s0));
                    assert(src.spec_node(from).edge.targets()[s0] == *child);
                    assert(src.spec_node(*child).sym == s0);
                }
                let ghost mid = *self;
                if !self.clone_subgraph_into(new_root, src, *child, true) {
                    proof {
                        assert(subtree_size(*src, from) == 1 + subtree_size(
                            *src,
                            src.spec_node(from).edge->Exclusive_1,
                        ));
                    }
                    return false;
                }
                proof {
                    assert(subtree_size(*src, from) == 1 + subtree_size(
                        *src,
                        src.spec_node(from).edge->Exclusive_1,
                    ));
                    assert(spec_dominates(*self, new_root, *src, from));
                    let s0 = src.spec_node(from).edge->Exclusive_0;
                    let new2 = (mid.nodes@.len() + 1) as NID;
                    assert forall|d: RellTree, dn: NID|
                        #[trigger] spec_dominates(d, dn, *src, from) implies spec_dominates(
                        d,
                        dn,
                        *self,
                        new_root,
                    ) by {
                        match d.spec_node(dn).edge {
                            RellE::Exclusive(ds, dc) => {
                                assert(ds == s0);
                                assert(spec_dominates(d, dc, *src, *child));
                                assert(spec_dominates(d, dc, *self, new2));
                                assert(self.spec_node(new_root).edge == RellE::Exclusive(
                                    src.spec_node(*child).sym,
                                    new2,
                                ));
                            },
                            _ => {
                                assert(!spec_dominates(d, dn, *src, from));
                            },
                        }
                    }
                }
                true
            },
            RellE::NonExclusive(m) => {
                self.ensure_nonex(new_root);
                let ghost base_len = self.nodes@.len();
                let n = m.entries.len();
                let mut i: usize = 0;
                while i < n
                    invariant
                        arena_wf(*self),
                        i <= n,
                        n == m.entries@.len(),
                        self.nodes@.len() <= old(self).nodes@.len() + 1 + subtree_sizes(
                            *src,
                            from,
                            m.entries@,
                            i as int,
                        ),
                        self.symbols == old(self).symbols,
                        self.valid_nid(new_root),
                        self.nodes@.len() >= old(self).nodes@.len() + 1,
                        new_root == old(self).nodes@.len() + 1,
                        forall|j: int|
                            0 <= j < old(self).nodes@.len() && j != into - 1 ==> self.nodes@[j]
                                == old(self).nodes@[j],
                        self.nodes@[into - 1].sym == old(self).nodes@[into - 1].sym,
                        self.nodes@[new_root - 1].sym == src.spec_node(from).sym,
                        exclusive ==> self.spec_node(into).edge == RellE::Exclusive(
                            src.spec_node(from).sym,
                            new_root,
                        ),
                        !exclusive ==> (self.spec_node(into).edge is NonExclusive
                            && self.spec_node(into).edge.targets() == (if old(self).spec_node(
                            into,
                        ).edge is NonExclusive {
                            old(self).spec_node(into).edge.targets()
                        } else {
                            Map::<SID, NID>::empty()
                        }).insert(src.spec_node(from).sym, new_root)),
                        self.spec_node(new_root).edge is NonExclusive,
                        forall|jj: int|
                            0 <= jj < i ==> {
                                let s = (#[trigger] m.entries@[jj]).0;
                                let t = self.spec_node(new_root).edge.targets();
                                t.dom().contains(s) && new_root < t[s] <= self.nodes@.len()
                                    && spec_dominates(*self, t[s], *src, m.to_map()[s])
                            },
                        forall|jj: int, d: RellTree, dn: NID|
                            0 <= jj < i && #[trigger] spec_dominates(
                                d,
                                dn,
                                *src,
                                m.to_map()[(#[trigger] m.entries@[jj]).0],
                            ) ==> spec_dominates(
                                d,
                                dn,
                                *self,
                                self.spec_node(new_root).edge.targets()[m.entries@[jj].0],
                            ),
                        forall|s: SID|
                            self.spec_node(new_root).edge.targets().dom().contains(s)
                                ==> exists|jj: int| 0 <= jj < i && (#[trigger] m.entries@[jj]).0 == s,
                        forall|j: int|
                            old(self).nodes@.len() <= j < self.nodes@.len()
                                ==> src.symbols.base_v().dom().contains(
                                (#[trigger] self.nodes@[j]).sym,
                            ),
                    decreases n - i,
                {
                    let s = m.entries[i].0;
                    let child = m.entries[i].1;
                    proof {
                        m.lemma_wf_distinct();
                        crate::vecmap::lemma_seq_to_map_index(m.entries@, i as int);
                        assert(src.spec_node(from).edge.targets().dom().contains(s));
                        assert(src.spec_node(from).edge.targets()[s] == child);
                        assert(src.valid_nid(child));
                        assert(src.spec_node(child).sym == s);
                    }
                    let ghost mid = *self;
                    if !self.clone_subgraph_into(new_root, src, child, false) {
                        proof {
                            assert(subtree_sizes(*src, from, m.entries@, i + 1) == subtree_size(
                                *src,
                                child,
                            ) + subtree_sizes(*src, from, m.entries@, i as int));
                            lemma_subtree_sizes_mono(*src, from, m.entries@, i + 1, n as int);
                        }
                        return false;
                    }
                    proof {
                        assert(subtree_sizes(*src, from, m.entries@, i + 1) == subtree_size(
                            *src,
                            child,
                        ) + subtree_sizes(*src, from, m.entries@, i as int));
                        assert forall|jj: int| 0 <= jj < i + 1 implies {
                            let s2 = (#[trigger] m.entries@[jj]).0;
                            let t = self.spec_node(new_root).edge.targets();
                            t.dom().contains(s2) && new_root < t[s2] <= self.nodes@.len()
                                && spec_dominates(*self, t[s2], *src, m.to_map()[s2])
                        } by {
                            let s2 = m.entries@[jj].0;
                            let t = self.spec_node(new_root).edge.targets();
                            if jj < i {
                                let told = mid.spec_node(new_root).edge.targets();
                                assert(told.dom().contains(s2));
                                assert(s2 != s);
                                assert(t[s2] == told[s2]);
                                assert(mid.node_wf(mid.nodes@[new_root - 1], new_root - 1));
                                assert(new_root < told[s2] <= mid.nodes@.len());
                                lemma_dominates_frame(mid, *self, told[s2], *src, m.to_map()[s2]);
                            } else {
                                crate::vecmap::lemma_seq_to_map_index(m.entries@, jj);
                            }
                        }
                        assert forall|s2: SID|
                            self.spec_node(new_root).edge.targets().dom().contains(
                                s2,
                            ) implies exists|jj: int|
                            0 <= jj < i + 1 && (#[trigger] m.entries@[jj]).0 == s2 by {
                            if s2 == s {
                                assert(m.entries@[i as int].0 == s2);
                            } else {
                                assert(mid.spec_node(new_root).edge.targets().dom().contains(s2));
                            }
                        }
                        assert forall|jj: int, d: RellTree, dn: NID|
                            0 <= jj < i + 1 && #[trigger] spec_dominates(
                                d,
                                dn,
                                *src,
                                m.to_map()[(#[trigger] m.entries@[jj]).0],
                            ) implies spec_dominates(
                            d,
                            dn,
                            *self,
                            self.spec_node(new_root).edge.targets()[m.entries@[jj].0],
                        ) by {
                            let s2 = m.entries@[jj].0;
                            let t = self.spec_node(new_root).edge.targets();
                            if jj < i {
                                let told = mid.spec_node(new_root).edge.targets();
                                assert(told.dom().contains(s2));
                                assert(s2 != s);
                                assert(t[s2] == told[s2]);
                                assert(mid.node_wf(mid.nodes@[new_root - 1], new_root - 1));
                                assert(new_root < told[s2] <= mid.nodes@.len());
                                assert(spec_dominates(d, dn, mid, told[s2]));
                                lemma_dominates_weak_frame(d, dn, mid, *self, told[s2]);
                            } else {
                                crate::vecmap::lemma_seq_to_map_index(m.entries@, jj);
                                assert(spec_dominates(d, dn, *src, child));
                            }
                        }
                    }
                    i = i + 1;
                }
                proof {
                    assert forall|s: SID| #[trigger]
                        src.spec_node(from).edge.targets().dom().contains(s) implies {
                        let t = self.spec_node(new_root).edge.targets();
                        t.dom().contains(s) && from < m.to_map()[s] <= src.nodes@.len()
                            && spec_dominates(*self, t[s], *src, m.to_map()[s])
                    } by {
                        crate::vecmap::lemma_seq_to_map_contains(m.entries@, s);
                        let jj = choose|jj: int|
                            0 <= jj < m.entries@.len() && (#[trigger] m.entries@[jj]).0 == s;
                        m.lemma_wf_distinct();
                        crate::vecmap::lemma_seq_to_map_index(m.entries@, jj);
                        assert(src.node_wf(src.nodes@[from - 1], from - 1));
                    }
                    assert(spec_dominates(*self, new_root, *src, from));
                    assert forall|d: RellTree, dn: NID|
                        #[trigger] spec_dominates(d, dn, *src, from) implies spec_dominates(
                        d,
                        dn,
                        *self,
                        new_root,
                    ) by {
                        let t = self.spec_node(new_root).edge.targets();
                        match d.spec_node(dn).edge {
                            RellE::NonExclusive(dm) => {
                                assert forall|s2: SID| #[trigger]
                                    t.dom().contains(s2) implies dm.to_map().dom().contains(s2)
                                    && new_root < t[s2] <= self.nodes@.len() && spec_dominates(
                                    d,
                                    dm.to_map()[s2],
                                    *self,
                                    t[s2],
                                ) by {
                                    let jj = choose|jj: int|
                                        0 <= jj < m.entries@.len() && (
                                        #[trigger] m.entries@[jj]).0 == s2;
                                    m.lemma_wf_distinct();
                                    crate::vecmap::lemma_seq_to_map_index(m.entries@, jj);
                                    assert(src.spec_node(from).edge.targets().dom().contains(s2));
                                    assert(spec_dominates(d, dm.to_map()[s2], *src, m.to_map()[s2]));
                                }
                            },
                            RellE::Exclusive(ds, dc) => {
                                assert(src.spec_node(from).edge.targets().dom().contains(ds));
                                assert(spec_dominates(d, dc, *src, m.to_map()[ds]));
                                let jj = choose|jj: int|
                                    0 <= jj < m.entries@.len() && (#[trigger] m.entries@[jj]).0
                                        == ds;
                                m.lemma_wf_distinct();
                                crate::vecmap::lemma_seq_to_map_index(m.entries@, jj);
                                assert(spec_dominates(d, dc, *self, t[ds]));
                            },
                            RellE::Empty => {
                                assert(!spec_dominates(d, dn, *src, from));
                            },
                        }
                    }
                }
                true
            },
        }
    }
}

/// Bounds used while walking the first operand's successors: the
/// partial budget so far never exceeds the full first-operand budget,
/// and the second-operand budget never subtracts.
proof fn lemma_pass1_bounds(
    a: RellTree,
    a_nid: NID,
    b: RellTree,
    b_nid: NID,
    am: VecMap<NID>,
    bm: VecMap<NID>,
    i: int,
)
    requires
        0 <= i < am.entries@.len(),
    ensures
        pair_budget_a(a, a_nid, b, b_nid, am.entries@, bm, i + 1) <= pair_budget_a(
            a,
            a_nid,
            b,
            b_nid,
            am.entries@,
            bm,
            am.entries@.len() as int,
        ),
        pair_budget_b(b, b_nid, am, bm.entries@, bm.entries@.len() as int) >= 0,
{
    lemma_pair_budget_a_mono(
        a,
        a_nid,
        b,
        b_nid,
        am.entries@,
        bm,
        i + 1,
        am.entries@.len() as int,
    );
    lemma_pair_budget_b_nonneg(b, b_nid, am, bm.entries@, bm.entries@.len() as int);
}

/// In the non-exclusive pairing case the whole budget splits into the
/// two passes' sums.
proof fn lemma_nonex_budget_split(a: RellTree, a_nid: NID, b: RellTree, b_nid: NID)
    requires
        a.valid_nid(a_nid),
        b.valid_nid(b_nid),
        a.spec_node(a_nid).edge is NonExclusive,
        b.spec_node(b_nid).edge is NonExclusive,
    ensures
        pair_budget(a, a_nid, b, b_nid) == pair_budget_a(
            a,
            a_nid,
            b,
            b_nid,
            a.spec_node(a_nid).edge->NonExclusive_0.entries@,
            b.spec_node(b_nid).edge->NonExclusive_0,
            a.spec_node(a_nid).edge->NonExclusive_0.entries@.len() as int,
        ) + pair_budget_b(
            b,
            b_nid,
            a.spec_node(a_nid).edge->NonExclusive_0,
            b.spec_node(b_nid).edge->NonExclusive_0.entries@,
            b.spec_node(b_nid).edge->NonExclusive_0.entries@.len() as int,
        ),
{
}

/// Builds under the node `c_nid` of `c` the information union of the
/// subtrees at `a_nid` of `a` and `b_nid` of `b`.  `false` when the
/// subtrees are incompatible (or the arena is full), in which case `c`
/// is abandoned by the caller.
#[verifier::loop_isolation(false)]
#[verifier::rlimit(100)]
fn glb_pair(a: &RellTree, a_nid: NID, b: &RellTree, b_nid: NID, c: &mut RellTree, c_nid: NID) -> (ok:
    bool)
    requires
        a.wf(),
        b.wf(),
        a.valid_nid(a_nid),
        b.valid_nid(b_nid),
        arena_wf(*old(c)),
        old(c).valid_nid(c_nid),
        old(c).spec_node(c_nid).edge is Empty || (old(c).spec_node(c_nid).edge is NonExclusive
            && old(c).spec_node(c_nid).edge.targets() == Map::<SID, NID>::empty()
            && a.spec_node(a_nid).edge is NonExclusive && b.spec_node(b_nid).edge is NonExclusive),
    ensures
        final(c).symbols == old(c).symbols,
        final(c).nodes@.len() <= old(c).nodes@.len() + pair_budget(*a, a_nid, *b, b_nid),
        !ok ==> (!spec_glb_compatible(*a, a_nid, *b, b_nid) || final(c).nodes@.len()
            >= usize::MAX - 1),
        ok ==> ({
            &&& arena_wf(*final(c))
            &&& final(c).nodes@.len() >= old(c).nodes@.len()
            &&& forall|j: int|
                0 <= j < old(c).nodes@.len() && j != c_nid - 1 ==> final(c).nodes@[j] == old(
                    c,
                ).nodes@[j]
            &&& final(c).nodes@[c_nid - 1].sym == old(c).nodes@[c_nid - 1].sym
            &&& spec_dominates(*final(c), c_nid, *a, a_nid)
            &&& spec_dominates(*final(c), c_nid, *b, b_nid)
            &&& spec_glb_compatible(*a, a_nid, *b, b_nid)
            &&& forall|d: RellTree, dn: NID|
                #[trigger] spec_dominates(d, dn, *a, a_nid) && #[trigger] spec_dominates(
                    d,
                    dn,
                    *b,
                    b_nid,
                ) ==> spec_dominates(d, dn, *final(c), c_nid)
            &&& forall|j: int|
                old(c).nodes@.len() <= j < final(c).nodes@.len() ==> (
                a.symbols.base_v().dom().contains((#[trigger] final(c).nodes@[j]).sym)
                    || b.symbols.base_v().dom().contains(final(c).nodes@[j].sym))
        }),
    decreases (a.nodes@.len() - a_nid) + (b.nodes@.len() - b_nid),
{
    let a_node = &a.nodes[a_nid - 1];
    let b_node = &b.nodes[b_nid - 1];
    proof {
        assert(a.node_wf(a.nodes@[a_nid - 1], a_nid - 1));
        assert(b.node_wf(b.nodes@[b_nid - 1], b_nid - 1));
        lemma_pair_budget_nonneg(*a, a_nid, *b, b_nid);
    }
    match (&a_node.edge, &b_node.edge) {
        (RellE::NonExclusive(am), RellE::NonExclusive(bm)) => {
            c.ensure_nonex(c_nid);
            let na = am.entries.len();
            let mut i: usize = 0;
            while i < na
                invariant
                    arena_wf(*c),
                    i <= na,
                    na == am.entries@.len(),
                    c.nodes@.len() <= old(c).nodes@.len() + pair_budget_a(
                        *a,
                        a_nid,
                        *b,
                        b_nid,
                        am.entries@,
                        *bm,
                        i as int,
                    ),
                    c.symbols == old(c).symbols,
                    c.valid_nid(c_nid),
                    c.nodes@.len() >= old(c).nodes@.len(),
                    forall|j: int|
                        0 <= j < old(c).nodes@.len() && j != c_nid - 1 ==> c.nodes@[j] == old(
                            c,
                        ).nodes@[j],
                    c.nodes@[c_nid - 1].sym == old(c).nodes@[c_nid - 1].sym,
                    c.spec_node(c_nid).edge is NonExclusive,
                    forall|jj: int|
                        0 <= jj < i ==> {
                            let s = (#[trigger] am.entries@[jj]).0;
                            let t = c.spec_node(c_nid).edge.targets();
                            t.dom().contains(s) && c_nid < t[s] <= c.nodes@.len()
                                && spec_dominates(*c, t[s], *a, am.to_map()[s]) && (
                            bm.to_map().dom().contains(s) ==> (spec_dominates(
                                *c,
                                t[s],
                                *b,
                                bm.to_map()[s],
                            ) && spec_glb_compatible(*a, am.to_map()[s], *b, bm.to_map()[s])))
                        },
                    forall|jj: int, d: RellTree, dn: NID|
                        0 <= jj < i && #[trigger] spec_dominates(
                            d,
                            dn,
                            *a,
                            am.to_map()[(#[trigger] am.entries@[jj]).0],
                        ) && (bm.to_map().dom().contains(am.entries@[jj].0) ==> spec_dominates(
                            d,
                            dn,
                            *b,
                            bm.to_map()[am.entries@[jj].0],
                        )) ==> spec_dominates(
                            d,
                            dn,
                            *c,
                            c.spec_node(c_nid).edge.targets()[am.entries@[jj].0],
                        ),
                    forall|s: SID|
                        c.spec_node(c_nid).edge.targets().dom().contains(s) ==> exists|jj: int|
                            0 <= jj < i && (#[trigger] am.entries@[jj]).0 == s,
                    forall|j: int|
                        old(c).nodes@.len() <= j < c.nodes@.len() ==> (
                        a.symbols.base_v().dom().contains((#[trigger] c.nodes@[j]).sym)
                            || b.symbols.base_v().dom().contains(c.nodes@[j].sym)),
                decreases na - i,
            {
                let s = am.entries[i].0;
                let a_child = am.entries[i].1;
                proof {
                    am.lemma_wf_distinct();
                    crate::vecmap::lemma_seq_to_map_index(am.entries@, i as int);
                    assert(a.spec_node(a_nid).edge.targets().dom().contains(s));
                    assert(a.spec_node(a_nid).edge.targets()[s] == a_child);
                }
                let ghost c_pre = *c;
                match bm.get(s) {
                    Some(b_child) => {
                        proof {
                            assert(b.spec_node(b_nid).edge.targets().dom().contains(s));
                            assert(b.spec_node(b_nid).edge.targets()[s] == bm.to_map()[s]);
                        }
                        proof {
                            lemma_pass1_bounds(*a, a_nid, *b, b_nid, *am, *bm, i as int);
                        }
                        let new = match c.insert_into(c_nid, s, false) {
                            Some(n) => n,
                            None => {
                                proof {
                                    lemma_pair_budget_a_mono(
                                        *a,
                                        a_nid,
                                        *b,
                                        b_nid,
                                        am.entries@,
                                        *bm,
                                        i as int,
                                        na as int,
                                    );
                                    lemma_nonex_budget_split(*a, a_nid, *b, b_nid);
                                }
                                return false;
                            },
                        };
                        let ghost c_mid = *c;
                        if !glb_pair(a, a_child, b, *b_child, c, new) {
                            proof {
                                lemma_nonex_budget_split(*a, a_nid, *b, b_nid);
                                if spec_glb_compatible(*a, a_nid, *b, b_nid) {
                                    assert(spec_glb_compatible(*a, a_child, *b, *b_child));
                                }
                            }
                            return false;
                        }
                        proof {
                            assert(c.spec_node(c_nid).edge.targets() == c_pre.spec_node(
                                c_nid,
                            ).edge.targets().insert(s, new));
                        }
                    },
                    None => {
                        proof {
                            lemma_pass1_bounds(*a, a_nid, *b, b_nid, *am, *bm, i as int);
                        }
                        if !c.clone_subgraph_into(c_nid, a, a_child, false) {
                            proof {
                                lemma_nonex_budget_split(*a, a_nid, *b, b_nid);
                            }
                            return false;
                        }
                        proof {
                            assert(c.spec_node(c_nid).edge.targets() == c_pre.spec_node(
                                c_nid,
                            ).edge.targets().insert(s, (c_pre.nodes@.len() + 1) as NID));
                        }
                    },
                }
                proof {
                    assert forall|jj: int| 0 <= jj < i + 1 implies {
                        let s2 = (#[trigger] am.entries@[jj]).0;
                        let t = c.spec_node(c_nid).edge.targets();
                        t.dom().contains(s2) && c_nid < t[s2] <= c.nodes@.len() && spec_dominates(
                            *c,
                            t[s2],
                            *a,
                            am.to_map()[s2],
                        ) && (bm.to_map().dom().contains(s2) ==> (spec_dominates(
                            *c,
                            t[s2],
                            *b,
                            bm.to_map()[s2],
                        ) && spec_glb_compatible(*a, am.to_map()[s2], *b, bm.to_map()[s2])))
                    } by {
                        let s2 = am.entries@[jj].0;
                        let t = c.spec_node(c_nid).edge.targets();
                        if jj < i {
                            let told = c_pre.spec_node(c_nid).edge.targets();
                            assert(told.dom().contains(s2));
                            assert(s2 != s);
                            assert(t[s2] == told[s2]);
                            assert(forall|j2: int|
                                told[s2] - 1 <= j2 < c_pre.nodes@.len() ==> c.nodes@[j2]
                                    == c_pre.nodes@[j2]);
                            lemma_dominates_frame(c_pre, *c, told[s2], *a, am.to_map()[s2]);
                            if bm.to_map().dom().contains(s2) {
                                lemma_dominates_frame(c_pre, *c, told[s2], *b, bm.to_map()[s2]);
                            }
                        } else {
                            crate::vecmap::lemma_seq_to_map_index(am.entries@, jj);
                        }
                    }
                    assert forall|jj: int, d: RellTree, dn: NID|
                        0 <= jj < i + 1 && #[trigger] spec_dominates(
                            d,
                            dn,
                            *a,
                            am.to_map()[(#[trigger] am.entries@[jj]).0],
                        ) && (bm.to_map().dom().contains(am.entries@[jj].0) ==> spec_dominates(
                            d,
                            dn,
                            *b,
                            bm.to_map()[am.entries@[jj].0],
                        )) implies spec_dominates(
                        d,
                        dn,
                        *c,
                        c.spec_node(c_nid).edge.targets()[am.entries@[jj].0],
                    ) by {
                        let s2 = am.entries@[jj].0;
                        let t = c.spec_node(c_nid).edge.targets();
                        if jj < i {
                            let told = c_pre.spec_node(c_nid).edge.targets();
                            assert(told.dom().contains(s2));
                            assert(s2 != s);
                            assert(t[s2] == told[s2]);
                            assert(c_pre.node_wf(c_pre.nodes@[c_nid - 1], c_nid - 1));
                            assert(c_nid < told[s2] <= c_pre.nodes@.len());
                            assert(spec_dominates(d, dn, c_pre, told[s2]));
                            lemma_dominates_weak_frame(d, dn, c_pre, *c, told[s2]);
                        } else {
                            crate::vecmap::lemma_seq_to_map_index(am.entries@, jj);
                            assert(spec_dominates(d, dn, *a, a_child));
                        }
                    }
                    assert forall|s2: SID|
                        c.spec_node(c_nid).edge.targets().dom().contains(s2) implies exists|jj: int|
                        0 <= jj < i + 1 && (#[trigger] am.entries@[jj]).0 == s2 by {
                        if s2 == s {
                            assert(am.entries@[i as int].0 == s2);
                        } else {
                            assert(c_pre.spec_node(c_nid).edge.targets().dom().contains(s2));
                        }
                    }
                }
                i = i + 1;
            }
            proof {
                assert forall|s: SID|
                    c.spec_node(c_nid).edge.targets().dom().contains(s) implies am.to_map(
                ).dom().contains(s) by {
                    let jj = choose|jj: int|
                        0 <= jj < na && (#[trigger] am.entries@[jj]).0 == s;
                    crate::vecmap::lemma_seq_to_map_contains(am.entries@, s);
                }
            }
            // clone the successors present only in `b`
            let ghost mid_state = *c;
            let nb = bm.entries.len();
            let mut i2: usize = 0;
            while i2 < nb
                invariant
                    arena_wf(*c),
                    i2 <= nb,
                    nb == bm.entries@.len(),
                    na == am.entries@.len(),
                    c.nodes@.len() <= old(c).nodes@.len() + pair_budget_a(
                        *a,
                        a_nid,
                        *b,
                        b_nid,
                        am.entries@,
                        *bm,
                        na as int,
                    ) + pair_budget_b(*b, b_nid, *am, bm.entries@, i2 as int),
                    c.symbols == old(c).symbols,
                    c.valid_nid(c_nid),
                    c.nodes@.len() >= old(c).nodes@.len(),
                    forall|j: int|
                        0 <= j < old(c).nodes@.len() && j != c_nid - 1 ==> c.nodes@[j] == old(
                            c,
                        ).nodes@[j],
                    c.nodes@[c_nid - 1].sym == old(c).nodes@[c_nid - 1].sym,
                    c.spec_node(c_nid).edge is NonExclusive,
                    forall|jj: int|
                        0 <= jj < na ==> {
                            let s = (#[trigger] am.entries@[jj]).0;
                            let t = c.spec_node(c_nid).edge.targets();
                            t.dom().contains(s) && c_nid < t[s] <= c.nodes@.len()
                                && spec_dominates(*c, t[s], *a, am.to_map()[s]) && (
                            bm.to_map().dom().contains(s) ==> (spec_dominates(
                                *c,
                                t[s],
                                *b,
                                bm.to_map()[s],
                            ) && spec_glb_compatible(*a, am.to_map()[s], *b, bm.to_map()[s])))
                        },
                    forall|jj: int|
                        0 <= jj < i2 ==> {
                            let s = (#[trigger] bm.entries@[jj]).0;
                            let t = c.spec_node(c_nid).edge.targets();
                            !am.to_map().dom().contains(s) ==> (t.dom().contains(s) && c_nid < t[s]
                                <= c.nodes@.len() && spec_dominates(*c, t[s], *b, bm.to_map()[s]))
                        },
                    forall|jj: int, d: RellTree, dn: NID|
                        0 <= jj < na && #[trigger] spec_dominates(
                            d,
                            dn,
                            *a,
                            am.to_map()[(#[trigger] am.entries@[jj]).0],
                        ) && (bm.to_map().dom().contains(am.entries@[jj].0) ==> spec_dominates(
                            d,
                            dn,
                            *b,
                            bm.to_map()[am.entries@[jj].0],
                        )) ==> spec_dominates(
                            d,
                            dn,
                            *c,
                            c.spec_node(c_nid).edge.targets()[am.entries@[jj].0],
                        ),
                    forall|jj: int, d: RellTree, dn: NID|
                        0 <= jj < i2 && !am.to_map().dom().contains((#[trigger] bm.entries@[jj]).0)
                            && #[trigger] spec_dominates(
                            d,
                            dn,
                            *b,
                            bm.to_map()[bm.entries@[jj].0],
                        ) ==> spec_dominates(
                            d,
                            dn,
                            *c,
                            c.spec_node(c_nid).edge.targets()[bm.entries@[jj].0],
                        ),
                    forall|s: SID|
                        c.spec_node(c_nid).edge.targets().dom().contains(s) ==> (
                        am.to_map().dom().contains(s) || exists|jj: int|
                            0 <= jj < i2 && (#[trigger] bm.entries@[jj]).0 == s),
                    forall|j: int|
                        old(c).nodes@.len() <= j < c.nodes@.len() ==> (
                        a.symbols.base_v().dom().contains((#[trigger] c.nodes@[j]).sym)
                            || b.symbols.base_v().dom().contains(c.nodes@[j].sym)),
                decreases nb - i2,
            {
                let s = bm.entries[i2].0;
                let b_child = bm.entries[i2].1;
                proof {
                    bm.lemma_wf_distinct();
                    crate::vecmap::lemma_seq_to_map_index(bm.entries@, i2 as int);
                    assert(b.spec_node(b_nid).edge.targets().dom().contains(s));
                    assert(b.spec_node(b_nid).edge.targets()[s] == b_child);
                }
                let ghost c_pre = *c;
                let in_a = am.contains_key(s);
                proof {
                    assert(pair_budget_b(*b, b_nid, *am, bm.entries@, i2 + 1) == (if !am.to_map(
                    ).dom().contains(s) && b_nid < b_child <= b.nodes@.len() {
                        subtree_size(*b, b_child)
                    } else {
                        0
                    }) + pair_budget_b(*b, b_nid, *am, bm.entries@, i2 as int));
                }
                if !in_a {
                    if !c.clone_subgraph_into(c_nid, b, b_child, false) {
                        proof {
                            lemma_pair_budget_b_mono(
                                *b,
                                b_nid,
                                *am,
                                bm.entries@,
                                i2 + 1,
                                nb as int,
                            );
                            lemma_nonex_budget_split(*a, a_nid, *b, b_nid);
                        }
                        return false;
                    }
                }
                proof {
                    assert forall|jj: int| 0 <= jj < na implies {
                        let s2 = (#[trigger] am.entries@[jj]).0;
                        let t = c.spec_node(c_nid).edge.targets();
                        t.dom().contains(s2) && c_nid < t[s2] <= c.nodes@.len() && spec_dominates(
                            *c,
                            t[s2],
                            *a,
                            am.to_map()[s2],
                        ) && (bm.to_map().dom().contains(s2) ==> (spec_dominates(
                            *c,
                            t[s2],
                            *b,
                            bm.to_map()[s2],
                        ) && spec_glb_compatible(*a, am.to_map()[s2], *b, bm.to_map()[s2])))
                    } by {
                        let s2 = am.entries@[jj].0;
                        let t = c.spec_node(c_nid).edge.targets();
                        let told = c_pre.spec_node(c_nid).edge.targets();
                        am.lemma_wf_distinct();
                        crate::vecmap::lemma_seq_to_map_index(am.entries@, jj);
                        assert(told.dom().contains(s2));
                        if !in_a {
                            assert(s2 != s);
                        }
                        assert(t[s2] == told[s2]);
                        lemma_dominates_frame(c_pre, *c, told[s2], *a, am.to_map()[s2]);
                        if bm.to_map().dom().contains(s2) {
                            lemma_dominates_frame(c_pre, *c, told[s2], *b, bm.to_map()[s2]);
                        }
                    }
                    assert forall|jj: int| 0 <= jj < i2 + 1 implies {
                        let s2 = (#[trigger] bm.entries@[jj]).0;
                        let t = c.spec_node(c_nid).edge.targets();
                        !am.to_map().dom().contains(s2) ==> (t.dom().contains(s2) && c_nid < t[s2]
                            <= c.nodes@.len() && spec_dominates(*c, t[s2], *b, bm.to_map()[s2]))
                    } by {
                        let s2 = bm.entries@[jj].0;
                        let t = c.spec_node(c_nid).edge.targets();
                        if !am.to_map().dom().contains(s2) {
                            if jj < i2 {
                                let told = c_pre.spec_node(c_nid).edge.targets();
                                bm.lemma_wf_distinct();
                                assert(told.dom().contains(s2));
                                if !in_a {
                                    assert(s2 != s);
                                }
                                assert(t[s2] == told[s2]);
                                lemma_dominates_frame(c_pre, *c, told[s2], *b, bm.to_map()[s2]);
                            } else {
                                crate::vecmap::lemma_seq_to_map_index(bm.entries@, jj);
                                assert(!in_a);
                            }
                        }
                    }
                    assert forall|jj: int, d: RellTree, dn: NID|
                        0 <= jj < na && #[trigger] spec_dominates(
                            d,
                            dn,
                            *a,
                            am.to_map()[(#[trigger] am.entries@[jj]).0],
                        ) && (bm.to_map().dom().contains(am.entries@[jj].0) ==> spec_dominates(
                            d,
                            dn,
                            *b,
                            bm.to_map()[am.entries@[jj].0],
                        )) implies spec_dominates(
                        d,
                        dn,
                        *c,
                        c.spec_node(c_nid).edge.targets()[am.entries@[jj].0],
                    ) by {
                        let s2 = am.entries@[jj].0;
                        let t = c.spec_node(c_nid).edge.targets();
                        let told = c_pre.spec_node(c_nid).edge.targets();
                        am.lemma_wf_distinct();
                        crate::vecmap::lemma_seq_to_map_index(am.entries@, jj);
                        assert(told.dom().contains(s2));
                        if !in_a {
                            assert(s2 != s);
                        }
                        assert(t[s2] == told[s2]);
                        assert(c_pre.node_wf(c_pre.nodes@[c_nid - 1], c_nid - 1));
                        assert(c_nid < told[s2] <= c_pre.nodes@.len());
                        assert(spec_dominates(d, dn, c_pre, told[s2]));
                        lemma_dominates_weak_frame(d, dn, c_pre, *c, told[s2]);
                    }
                    assert forall|jj: int, d: RellTree, dn: NID|
                        0 <= jj < i2 + 1 && !am.to_map().dom().contains(
                            (#[trigger] bm.entries@[jj]).0,
                        ) && #[trigger] spec_dominates(
                            d,
                            dn,
                            *b,
                            bm.to_map()[bm.entries@[jj].0],
                        ) implies spec_dominates(
                        d,
                        dn,
                        *c,
                        c.spec_node(c_nid).edge.targets()[bm.entries@[jj].0],
                    ) by {
                        let s2 = bm.entries@[jj].0;
                        let t = c.spec_node(c_nid).edge.targets();
                        if jj < i2 {
                            let told = c_pre.spec_node(c_nid).edge.targets();
                            bm.lemma_wf_distinct();
                            assert(told.dom().contains(s2));
                            if !in_a {
                                assert(s2 != s);
                            }
                            assert(t[s2] == told[s2]);
                            assert(c_pre.node_wf(c_pre.nodes@[c_nid - 1], c_nid - 1));
                            assert(c_nid < told[s2] <= c_pre.nodes@.len());
                            assert(spec_dominates(d, dn, c_pre, told[s2]));
                            lemma_dominates_weak_frame(d, dn, c_pre, *c, told[s2]);
                        } else {
                            crate::vecmap::lemma_seq_to_map_index(bm.entries@, jj);
                            assert(!in_a);
                            assert(spec_dominates(d, dn, *b, b_child));
                        }
                    }
                    assert forall|s2: SID|
                        c.spec_node(c_nid).edge.targets().dom().contains(s2) implies (
                    am.to_map().dom().contains(s2) || exists|jj: int|
                        0 <= jj < i2 + 1 && (#[trigger] bm.entries@[jj]).0 == s2) by {
                        if !in_a && s2 == s {
                            assert(bm.entries@[i2 as int].0 == s2);
                        } else {
                            assert(c_pre.spec_node(c_nid).edge.targets().dom().contains(s2));
                        }
                    }
                }
                i2 = i2 + 1;
            }
            proof {
                assert forall|s: SID| #[trigger] am.to_map().dom().contains(s) implies {
                    let t = c.spec_node(c_nid).edge.targets();
                    t.dom().contains(s) && a_nid < am.to_map()[s] <= a.nodes@.len()
                        && spec_dominates(*c, t[s], *a, am.to_map()[s])
                } by {
                    crate::vecmap::lemma_seq_to_map_contains(am.entries@, s);
                    let jj = choose|jj: int|
                        0 <= jj < am.entries@.len() && (#[trigger] am.entries@[jj]).0 == s;
                    assert(a.spec_node(a_nid).edge.targets().dom().contains(s));
                }
                assert forall|s: SID| #[trigger] bm.to_map().dom().contains(s) implies {
                    let t = c.spec_node(c_nid).edge.targets();
                    t.dom().contains(s) && b_nid < bm.to_map()[s] <= b.nodes@.len()
                        && spec_dominates(*c, t[s], *b, bm.to_map()[s])
                } by {
                    crate::vecmap::lemma_seq_to_map_contains(bm.entries@, s);
                    let jj = choose|jj: int|
                        0 <= jj < bm.entries@.len() && (#[trigger] bm.entries@[jj]).0 == s;
                    assert(b.spec_node(b_nid).edge.targets().dom().contains(s));
                    if am.to_map().dom().contains(s) {
                        crate::vecmap::lemma_seq_to_map_contains(am.entries@, s);
                        let kk = choose|kk: int|
                            0 <= kk < am.entries@.len() && (#[trigger] am.entries@[kk]).0 == s;
                        assert(am.entries@[kk].0 == s);
                    }
                }
                assert(spec_dominates(*c, c_nid, *a, a_nid));
                assert(spec_dominates(*c, c_nid, *b, b_nid));
                assert forall|s: SID|
                    #![trigger am.to_map().dom().contains(s), bm.to_map().dom().contains(s)]
                    (am.to_map().dom().contains(s) && bm.to_map().dom().contains(s)) implies {
                    let ac = am.to_map()[s];
                    let bc = bm.to_map()[s];
                    (a_nid < ac <= a.nodes@.len() && b_nid < bc <= b.nodes@.len())
                        ==> spec_glb_compatible(*a, ac, *b, bc)
                } by {
                    crate::vecmap::lemma_seq_to_map_contains(am.entries@, s);
                    let jj = choose|jj: int|
                        0 <= jj < am.entries@.len() && (#[trigger] am.entries@[jj]).0 == s;
                    assert(am.entries@[jj].0 == s);
                }
                assert(spec_glb_compatible(*a, a_nid, *b, b_nid));
                lemma_nonex_budget_split(*a, a_nid, *b, b_nid);
                assert forall|d: RellTree, dn: NID|
                    #[trigger] spec_dominates(d, dn, *a, a_nid) && #[trigger] spec_dominates(
                        d,
                        dn,
                        *b,
                        b_nid,
                    ) implies spec_dominates(d, dn, *c, c_nid) by {
                    let t = c.spec_node(c_nid).edge.targets();
                    match d.spec_node(dn).edge {
                        RellE::NonExclusive(dm) => {
                            assert forall|s2: SID| #[trigger]
                                t.dom().contains(s2) implies dm.to_map().dom().contains(s2)
                                && c_nid < t[s2] <= c.nodes@.len() && spec_dominates(
                                d,
                                dm.to_map()[s2],
                                *c,
                                t[s2],
                            ) by {
                                if am.to_map().dom().contains(s2) {
                                    crate::vecmap::lemma_seq_to_map_contains(am.entries@, s2);
                                    let jj = choose|jj: int|
                                        0 <= jj < am.entries@.len() && (
                                        #[trigger] am.entries@[jj]).0 == s2;
                                    am.lemma_wf_distinct();
                                    crate::vecmap::lemma_seq_to_map_index(am.entries@, jj);
                                    assert(a.spec_node(a_nid).edge.targets().dom().contains(s2));
                                    assert(spec_dominates(d, dm.to_map()[s2], *a, am.to_map()[s2]));
                                    if bm.to_map().dom().contains(s2) {
                                        assert(b.spec_node(
                                            b_nid,
                                        ).edge.targets().dom().contains(s2));
                                        assert(spec_dominates(
                                            d,
                                            dm.to_map()[s2],
                                            *b,
                                            bm.to_map()[s2],
                                        ));
                                    }
                                    assert(spec_dominates(d, dm.to_map()[s2], *c, t[s2]));
                                } else {
                                    let jj = choose|jj: int|
                                        0 <= jj < nb && (#[trigger] bm.entries@[jj]).0 == s2;
                                    bm.lemma_wf_distinct();
                                    crate::vecmap::lemma_seq_to_map_index(bm.entries@, jj);
                                    assert(b.spec_node(b_nid).edge.targets().dom().contains(s2));
                                    assert(spec_dominates(d, dm.to_map()[s2], *b, bm.to_map()[s2]));
                                    assert(spec_dominates(d, dm.to_map()[s2], *c, t[s2]));
                                }
                            }
                        },
                        RellE::Exclusive(ds, dc) => {
                            assert(a.spec_node(a_nid).edge.targets().dom().contains(ds));
                            assert(spec_dominates(d, dc, *a, am.to_map()[ds]));
                            assert(b.spec_node(b_nid).edge.targets().dom().contains(ds));
                            assert(spec_dominates(d, dc, *b, bm.to_map()[ds]));
                            crate::vecmap::lemma_seq_to_map_contains(am.entries@, ds);
                            let jj = choose|jj: int|
                                0 <= jj < am.entries@.len() && (#[trigger] am.entries@[jj]).0
                                    == ds;
                            am.lemma_wf_distinct();
                            crate::vecmap::lemma_seq_to_map_index(am.entries@, jj);
                            assert(spec_dominates(d, dc, *c, t[ds]));
                            assert(t.dom().contains(ds));
                        },
                        RellE::Empty => {
                            assert(!spec_dominates(d, dn, *a, a_nid));
                        },
                    }
                }
            }
            true
        },
        (RellE::Exclusive(as_, an), RellE::Exclusive(bs, bn)) => {
            if *as_ != *bs {
                return false;
            }
            proof {
                assert(a.spec_node(a_nid).edge.targets().dom().contains(*as_));
                assert(a.spec_node(a_nid).edge.targets()[*as_] == *an);
                assert(b.spec_node(b_nid).edge.targets().dom().contains(*bs));
                assert(b.spec_node(b_nid).edge.targets()[*bs] == *bn);
                assert(old(c).spec_node(c_nid).edge is Empty);
            }
            let new = match c.insert_into(c_nid, *as_, true) {
                Some(n) => n,
                None => {
                    return false;
                },
            };
            if !glb_pair(a, *an, b, *bn, c, new) {
                return false;
            }
            proof {
                assert(c.spec_node(c_nid).edge == RellE::Exclusive(*as_, new));
                assert(spec_dominates(*c, c_nid, *a, a_nid));
                assert(spec_dominates(*c, c_nid, *b, b_nid));
                assert forall|d: RellTree, dn: NID|
                    #[trigger] spec_dominates(d, dn, *a, a_nid) && #[trigger] spec_dominates(
                        d,
                        dn,
                        *b,
                        b_nid,
                    ) implies spec_dominates(d, dn, *c, c_nid) by {
                    match d.spec_node(dn).edge {
                        RellE::Exclusive(ds, dc) => {
                            assert(ds == *as_);
                            assert(spec_dominates(d, dc, *a, *an));
                            assert(spec_dominates(d, dc, *b, *bn));
                            assert(spec_dominates(d, dc, *c, new));
                        },
                        _ => {
                            assert(!spec_dominates(d, dn, *a, a_nid));
                        },
                    }
                }
            }
            true
        },
        (RellE::Exclusive(as_, an), RellE::NonExclusive(bm)) => {
            proof {
                assert(a.spec_node(a_nid).edge.targets().dom().contains(*as_));
                assert(a.spec_node(a_nid).edge.targets()[*as_] == *an);
                assert(old(c).spec_node(c_nid).edge is Empty);
            }
            if bm.len() != 1 {
                proof {
                    bm.lemma_wf_distinct();
                    if bm.entries@.len() == 0 {
                        crate::vecmap::lemma_seq_to_map_contains(bm.entries@, *as_);
                    } else {
                        crate::vecmap::lemma_seq_to_map_index(bm.entries@, 0);
                        crate::vecmap::lemma_seq_to_map_index(bm.entries@, 1);
                        assert(bm.entries@[0].0 != bm.entries@[1].0);
                    }
                    assert(!spec_glb_compatible(*a, a_nid, *b, b_nid));
                }
                return false;
            }
            let b_child = match bm.get(*as_) {
                Some(x) => *x,
                None => {
                    return false;
                },
            };
            proof {
                assert(b.spec_node(b_nid).edge.targets().dom().contains(*as_));
                assert(b.spec_node(b_nid).edge.targets()[*as_] == b_child);
                assert forall|s: SID| #[trigger] bm.to_map().dom().contains(s) implies s
                    == *as_ by {
                    crate::vecmap::lemma_seq_to_map_contains(bm.entries@, s);
                    crate::vecmap::lemma_seq_to_map_contains(bm.entries@, *as_);
                }
            }
            let new = match c.insert_into(c_nid, *as_, true) {
                Some(n) => n,
                None => {
                    return false;
                },
            };
            if !glb_pair(a, *an, b, b_child, c, new) {
                return false;
            }
            proof {
                assert(c.spec_node(c_nid).edge == RellE::Exclusive(*as_, new));
                assert(spec_dominates(*c, c_nid, *a, a_nid));
                assert(spec_dominates(*c, c_nid, *b, b_nid));
                assert forall|d: RellTree, dn: NID|
                    #[trigger] spec_dominates(d, dn, *a, a_nid) && #[trigger] spec_dominates(
                        d,
                        dn,
                        *b,
                        b_nid,
                    ) implies spec_dominates(d, dn, *c, c_nid) by {
                    match d.spec_node(dn).edge {
                        RellE::Exclusive(ds, dc) => {
                            assert(ds == *as_);
                            assert(spec_dominates(d, dc, *a, *an));
                            assert(b.spec_node(b_nid).edge.targets().dom().contains(ds));
                            assert(spec_dominates(d, dc, *b, b_child));
                            assert(spec_dominates(d, dc, *c, new));
                        },
                        _ => {
                            assert(!spec_dominates(d, dn, *a, a_nid));
                        },
                    }
                }
            }
            true
        },
        (RellE::NonExclusive(am), RellE::Exclusive(bs, bn)) => {
            proof {
                assert(b.spec_node(b_nid).edge.targets().dom().contains(*bs));
                assert(b.spec_node(b_nid).edge.targets()[*bs] == *bn);
                assert(old(c).spec_node(c_nid).edge is Empty);
            }
            if am.len() != 1 {
                proof {
                    am.lemma_wf_distinct();
                    if am.entries@.len() == 0 {
                        crate::vecmap::lemma_seq_to_map_contains(am.entries@, *bs);
                    } else {
                        crate::vecmap::lemma_seq_to_map_index(am.entries@, 0);
                        crate::vecmap::lemma_seq_to_map_index(am.entries@, 1);
                        assert(am.entries@[0].0 != am.entries@[1].0);
                    }
                    assert(!spec_glb_compatible(*a, a_nid, *b, b_nid));
                }
                return false;
            }
            let a_child = match am.get(*bs) {
                Some(x) => *x,
                None => {
                    return false;
                },
            };
            proof {
                assert(a.spec_node(a_nid).edge.targets().dom().contains(*bs));
                assert(a.spec_node(a_nid).edge.targets()[*bs] == a_child);
                assert forall|s: SID| #[trigger] am.to_map().dom().contains(s) implies s
                    == *bs by {
                    crate::vecmap::lemma_seq_to_map_contains(am.entries@, s);
                    crate::vecmap::lemma_seq_to_map_contains(am.entries@, *bs);
                }
            }
            let new = match c.insert_into(c_nid, *bs, true) {
                Some(n) => n,
                None => {
                    return false;
                },
            };
            if !glb_pair(a, a_child, b, *bn, c, new) {
                return false;
            }
            proof {
                assert(c.spec_node(c_nid).edge == RellE::Exclusive(*bs, new));
                assert(spec_dominates(*c, c_nid, *a, a_nid));
                assert(spec_dominates(*c, c_nid, *b, b_nid));
                assert forall|d: RellTree, dn: NID|
                    #[trigger] spec_dominates(d, dn, *a, a_nid) && #[trigger] spec_dominates(
                        d,
                        dn,
                        *b,
                        b_nid,
                    ) implies spec_dominates(d, dn, *c, c_nid) by {
                    match d.spec_node(dn).edge {
                        RellE::Exclusive(ds, dc) => {
                            assert(ds == *bs);
                            assert(spec_dominates(d, dc, *b, *bn));
                            assert(a.spec_node(a_nid).edge.targets().dom().contains(ds));
                            assert(spec_dominates(d, dc, *a, a_child));
                            assert(spec_dominates(d, dc, *c, new));
                        },
                        _ => {
                            assert(!spec_dominates(d, dn, *b, b_nid));
                        },
                    }
                }
            }
            true
        },
        (RellE::Empty, _) => {
            let r = clone_side_under(c, c_nid, b, b_nid);
            proof {
                if r {
                    assert(spec_dominates(*c, c_nid, *a, a_nid));
                    assert forall|d: RellTree, dn: NID|
                        #[trigger] spec_dominates(d, dn, *a, a_nid) && #[trigger] spec_dominates(
                            d,
                            dn,
                            *b,
                            b_nid,
                        ) implies spec_dominates(d, dn, *c, c_nid) by {}
                }
            }
            r
        },
        (_, RellE::Empty) => {
            let r = clone_side_under(c, c_nid, a, a_nid);
            proof {
                if r {
                    assert(spec_dominates(*c, c_nid, *b, b_nid));
                    assert forall|d: RellTree, dn: NID|
                        #[trigger] spec_dominates(d, dn, *a, a_nid) && #[trigger] spec_dominates(
                            d,
                            dn,
                            *b,
                            b_nid,
                        ) implies spec_dominates(d, dn, *c, c_nid) by {}
                }
            }
            r
        },
    }
}

/// Clones the successors of `src`'s node under `c_nid`, preserving the
/// edge kind: used when the other operand's node is a leaf.
#[verifier::loop_isolation(false)]
#[verifier::rlimit(60)]
fn clone_side_under(c: &mut RellTree, c_nid: NID, src: &RellTree, from: NID) -> (ok: bool)
    requires
        src.wf(),
        src.valid_nid(from),
        arena_wf(*old(c)),
        old(c).valid_nid(c_nid),
        old(c).spec_node(c_nid).edge is Empty || (old(c).spec_node(c_nid).edge is NonExclusive
            && old(c).spec_node(c_nid).edge.targets() == Map::<SID, NID>::empty()
            && src.spec_node(from).edge is NonExclusive),
    ensures
        final(c).symbols == old(c).symbols,
        final(c).nodes@.len() <= old(c).nodes@.len() + subtree_size(*src, from),
        !ok ==> final(c).nodes@.len() >= usize::MAX - 1,
        ok ==> ({
            &&& arena_wf(*final(c))
            &&& final(c).nodes@.len() >= old(c).nodes@.len()
            &&& forall|j: int|
                0 <= j < old(c).nodes@.len() && j != c_nid - 1 ==> final(c).nodes@[j] == old(
                    c,
                ).nodes@[j]
            &&& final(c).nodes@[c_nid - 1].sym == old(c).nodes@[c_nid - 1].sym
            &&& spec_dominates(*final(c), c_nid, *src, from)
            &&& forall|d: RellTree, dn: NID|
                #[trigger] spec_dominates(d, dn, *src, from) ==> spec_dominates(
                    d,
                    dn,
                    *final(c),
                    c_nid,
                )
            &&& (old(c).spec_node(c_nid).edge is Empty && src.spec_node(from).edge is Empty
                ==> final(c).spec_node(c_nid).edge is Empty)
            &&& forall|j: int|
                old(c).nodes@.len() <= j < final(c).nodes@.len()
                    ==> src.symbols.base_v().dom().contains((#[trigger] final(c).nodes@[j]).sym)
        }),
{
    let src_node = &src.nodes[from - 1];
    proof {
        assert(src.node_wf(src.nodes@[from - 1], from - 1));
        lemma_subtree_size_nonneg(*src, from);
    }
    match &src_node.edge {
        RellE::Empty => {
            proof {
                assert(old(c).spec_node(c_nid).edge is Empty);
                assert forall|d: RellTree, dn: NID|
                    #[trigger] spec_dominates(d, dn, *src, from) implies spec_dominates(
                    d,
                    dn,
                    *c,
                    c_nid,
                ) by {
                    assert(c.spec_node(c_nid).edge is Empty);
                }
            }
            true
        },
        RellE::Exclusive(_, child) => {
            proof {
                let s0 = src.spec_node(from).edge->Exclusive_0;
                assert(src.spec_node(from).edge.targets().dom().contains(s0));
                assert(src.spec_node(from).edge.targets()[s0] == *child);
                assert(src.spec_node(*child).sym == s0);
                assert(old(c).spec_node(c_nid).edge is Empty);
            }
            let ghost pre = *c;
            if !c.clone_subgraph_into(c_nid, src, *child, true) {
                proof {
                    assert(subtree_size(*src, from) == 1 + subtree_size(
                        *src,
                        src.spec_node(from).edge->Exclusive_1,
                    ));
                }
                return false;
            }
            proof {
                assert(subtree_size(*src, from) == 1 + subtree_size(
                    *src,
                    src.spec_node(from).edge->Exclusive_1,
                ));
                assert(spec_dominates(*c, c_nid, *src, from));
                let s0 = src.spec_node(from).edge->Exclusive_0;
                let new2 = (pre.nodes@.len() + 1) as NID;
                assert forall|d: RellTree, dn: NID|
                    #[trigger] spec_dominates(d, dn, *src, from) implies spec_dominates(
                    d,
                    dn,
                    *c,
                    c_nid,
                ) by {
                    match d.spec_node(dn).edge {
                        RellE::Exclusive(ds, dc) => {
                            assert(ds == s0);
                            assert(spec_dominates(d, dc, *src, *child));
                            assert(spec_dominates(d, dc, *c, new2));
                            assert(c.spec_node(c_nid).edge == RellE::Exclusive(
                                src.spec_node(*child).sym,
                                new2,
                            ));
                        },
                        _ => {
                            assert(!spec_dominates(d, dn, *src, from));
                        },
                    }
                }
            }
            true
        },
        RellE::NonExclusive(m) => {
            c.ensure_nonex(c_nid);
            let n = m.entries.len();
            let mut i: usize = 0;
            while i < n
                invariant
                    arena_wf(*c),
                    i <= n,
                    n == m.entries@.len(),
                    c.nodes@.len() <= old(c).nodes@.len() + subtree_sizes(
                        *src,
                        from,
                        m.entries@,
                        i as int,
                    ),
                    c.symbols == old(c).symbols,
                    c.valid_nid(c_nid),
                    c.nodes@.len() >= old(c).nodes@.len(),
                    forall|j: int|
                        0 <= j < old(c).nodes@.len() && j != c_nid - 1 ==> c.nodes@[j] == old(
                            c,
                        ).nodes@[j],
                    c.nodes@[c_nid - 1].sym == old(c).nodes@[c_nid - 1].sym,
                    c.spec_node(c_nid).edge is NonExclusive,
                    forall|jj: int|
                        0 <= jj < i ==> {
                            let s = (#[trigger] m.entries@[jj]).0;
                            let t = c.spec_node(c_nid).edge.targets();
                            t.dom().contains(s) && c_nid < t[s] <= c.nodes@.len()
                                && spec_dominates(*c, t[s], *src, m.to_map()[s])
                        },
                    forall|jj: int, d: RellTree, dn: NID|
                        0 <= jj < i && #[trigger] spec_dominates(
                            d,
                            dn,
                            *src,
                            m.to_map()[(#[trigger] m.entries@[jj]).0],
                        ) ==> spec_dominates(
                            d,
                            dn,
                            *c,
                            c.spec_node(c_nid).edge.targets()[m.entries@[jj].0],
                        ),
                    forall|s: SID|
                        c.spec_node(c_nid).edge.targets().dom().contains(s) ==> exists|jj: int|
                            0 <= jj < i && (#[trigger] m.entries@[jj]).0 == s,
                    forall|j: int|
                        old(c).nodes@.len() <= j < c.nodes@.len()
                            ==> src.symbols.base_v().dom().contains((#[trigger] c.nodes@[j]).sym),
                decreases n - i,
            {
                let s = m.entries[i].0;
                let child = m.entries[i].1;
                proof {
                    m.lemma_wf_distinct();
                    crate::vecmap::lemma_seq_to_map_index(m.entries@, i as int);
                    assert(src.spec_node(from).edge.targets().dom().contains(s));
                    assert(src.spec_node(from).edge.targets()[s] == child);
                }
                let ghost c_pre = *c;
                if !c.clone_subgraph_into(c_nid, src, child, false) {
                    proof {
                        assert(subtree_sizes(*src, from, m.entries@, i + 1) == subtree_size(
                            *src,
                            child,
                        ) + subtree_sizes(*src, from, m.entries@, i as int));
                        lemma_subtree_sizes_mono(*src, from, m.entries@, i + 1, n as int);
                    }
                    return false;
                }
                proof {
                    assert(subtree_sizes(*src, from, m.entries@, i + 1) == subtree_size(
                        *src,
                        child,
                    ) + subtree_sizes(*src, from, m.entries@, i as int));
                }
                proof {
                    assert forall|jj: int| 0 <= jj < i + 1 implies {
                        let s2 = (#[trigger] m.entries@[jj]).0;
                        let t = c.spec_node(c_nid).edge.targets();
                        t.dom().contains(s2) && c_nid < t[s2] <= c.nodes@.len() && spec_dominates(
                            *c,
                            t[s2],
                            *src,
                            m.to_map()[s2],
                        )
                    } by {
                        let s2 = m.entries@[jj].0;
                        let t = c.spec_node(c_nid).edge.targets();
                        if jj < i {
                            let told = c_pre.spec_node(c_nid).edge.targets();
                            assert(told.dom().contains(s2));
                            assert(s2 != s);
                            assert(t[s2] == told[s2]);
                            lemma_dominates_frame(c_pre, *c, told[s2], *src, m.to_map()[s2]);
                        } else {
                            crate::vecmap::lemma_seq_to_map_index(m.entries@, jj);
                        }
                    }
                    assert forall|jj: int, d: RellTree, dn: NID|
                        0 <= jj < i + 1 && #[trigger] spec_dominates(
                            d,
                            dn,
                            *src,
                            m.to_map()[(#[trigger] m.entries@[jj]).0],
                        ) implies spec_dominates(
                        d,
                        dn,
                        *c,
                        c.spec_node(c_nid).edge.targets()[m.entries@[jj].0],
                    ) by {
                        let s2 = m.entries@[jj].0;
                        let t = c.spec_node(c_nid).edge.targets();
                        if jj < i {
                            let told = c_pre.spec_node(c_nid).edge.targets();
                            assert(told.dom().contains(s2));
                            assert(s2 != s);
                            assert(t[s2] == told[s2]);
                            assert(c_pre.node_wf(c_pre.nodes@[c_nid - 1], c_nid - 1));
                            assert(c_nid < told[s2] <= c_pre.nodes@.len());
                            assert(spec_dominates(d, dn, c_pre, told[s2]));
                            lemma_dominates_weak_frame(d, dn, c_pre, *c, told[s2]);
                        } else {
                            crate::vecmap::lemma_seq_to_map_index(m.entries@, jj);
                            assert(spec_dominates(d, dn, *src, child));
                        }
                    }
                    assert forall|s2: SID|
                        c.spec_node(c_nid).edge.targets().dom().contains(s2) implies exists|jj: int|
                        0 <= jj < i + 1 && (#[trigger] m.entries@[jj]).0 == s2 by {
                        if s2 == s {
                            assert(m.entries@[i as int].0 == s2);
                        } else {
                            assert(c_pre.spec_node(c_nid).edge.targets().dom().contains(s2));
                        }
                    }
                }
                i = i + 1;
            }
            proof {
                assert forall|s: SID| #[trigger]
                    src.spec_node(from).edge.targets().dom().contains(s) implies {
                    let t = c.spec_node(c_nid).edge.targets();
                    t.dom().contains(s) && from < m.to_map()[s] <= src.nodes@.len()
                        && spec_dominates(*c, t[s], *src, m.to_map()[s])
                } by {
                    crate::vecmap::lemma_seq_to_map_contains(m.entries@, s);
                    let jj = choose|jj: int|
                        0 <= jj < m.entries@.len() && (#[trigger] m.entries@[jj]).0 == s;
                }
                assert(spec_dominates(*c, c_nid, *src, from));
                assert forall|d: RellTree, dn: NID|
                    #[trigger] spec_dominates(d, dn, *src, from) implies spec_dominates(
                    d,
                    dn,
                    *c,
                    c_nid,
                ) by {
                    let t = c.spec_node(c_nid).edge.targets();
                    match d.spec_node(dn).edge {
                        RellE::NonExclusive(dm) => {
                            assert forall|s2: SID| #[trigger]
                                t.dom().contains(s2) implies dm.to_map().dom().contains(s2)
                                && c_nid < t[s2] <= c.nodes@.len() && spec_dominates(
                                d,
                                dm.to_map()[s2],
                                *c,
                                t[s2],
                            ) by {
                                let jj = choose|jj: int|
                                    0 <= jj < m.entries@.len() && (#[trigger] m.entries@[jj]).0
                                        == s2;
                                m.lemma_wf_distinct();
                                crate::vecmap::lemma_seq_to_map_index(m.entries@, jj);
                                assert(src.spec_node(from).edge.targets().dom().contains(s2));
                                assert(spec_dominates(d, dm.to_map()[s2], *src, m.to_map()[s2]));
                            }
                        },
                        RellE::Exclusive(ds, dc) => {
                            assert(src.spec_node(from).edge.targets().dom().contains(ds));
                            assert(spec_dominates(d, dc, *src, m.to_map()[ds]));
                            let jj = choose|jj: int|
                                0 <= jj < m.entries@.len() && (#[trigger] m.entries@[jj]).0 == ds;
                            m.lemma_wf_distinct();
                            crate::vecmap::lemma_seq_to_map_index(m.entries@, jj);
                            assert(spec_dominates(d, dc, *c, t[ds]));
                        },
                        RellE::Empty => {
                            assert(!spec_dominates(d, dn, *src, from));
                        },
                    }
                }
            }
            true
        },
    }
}

impl RellTree {
    /// The greatest lower bound (the information union) of the two
    /// trees: the smallest tree containing at least as much information
    /// as each of them, or `None` when they are incompatible.  The
    /// result's symbol table is the union of both operands' tables, the
    /// second operand winning a collision.
    #[verifier::loop_isolation(false)]
    pub fn greatest_lower_bound(&self, other: &Self) -> (r: Option<RellTree>)
        requires
            self.wf(),
            other.wf(),
        ensures
            r is None ==> (!spec_glb_compatible(*self, 1, *other, 1) || pair_budget(
                *self,
                1,
                *other,
                1,
            ) + 1 >= usize::MAX - 1),
            (spec_glb_compatible(*self, 1, *other, 1) && pair_budget(*self, 1, *other, 1) + 1
                < usize::MAX - 1) ==> r is Some,
            r matches Some(glb) ==> ({
                &&& glb.wf()
                &&& spec_dominates(glb, 1, *self, 1)
                &&& spec_dominates(glb, 1, *other, 1)
                &&& spec_glb_compatible(*self, 1, *other, 1)
                &&& spec_glb_compatible(*other, 1, *self, 1)
                &&& forall|d: RellTree, dn: NID|
                    #[trigger] spec_dominates(d, dn, *self, 1) && #[trigger] spec_dominates(
                        d,
                        dn,
                        *other,
                        1,
                    ) ==> spec_dominates(d, dn, glb, 1)
                &&& glb.symbols.base_v() =~= Map::<SID, crate::rellcore::SymV>::empty().insert(
                    sid_of("ROOT"@),
                    crate::rellcore::SymV {
                        tag: crate::rellcore::SymTag::Literal,
                        text: "ROOT"@,
                    },
                ).union_prefer_right(self.symbols.base_v()).union_prefer_right(
                    other.symbols.base_v(),
                )
                &&& glb.symbols.overlay_v() =~= Map::<SID, SID>::empty()
            }),
    {
        let mut glb = RellTree::new();
        if !glb_pair(self, 1, other, 1, &mut glb, 1) {
            proof {
                assert(glb.nodes@.len() <= 1 + pair_budget(*self, 1, *other, 1));
            }
            return None;
        }
        let ghost built = glb;
        // union both symbol tables into the result, the second winning
        let n1 = self.symbols.symbols.entries.len();
        let mut i: usize = 0;
        while i < n1
            invariant
                i <= n1,
                glb.nodes == built.nodes,
                glb.symbols.wf(),
                glb.symbols.overlay_v() == built.symbols.overlay_v(),
                forall|k: SID|
                    #[trigger] built.symbols.base_v().dom().contains(k)
                        ==> glb.symbols.base_v().dom().contains(k),
                forall|jj: int|
                    0 <= jj < i ==> glb.symbols.base_v().dom().contains(
                        (#[trigger] self.symbols.symbols.entries@[jj]).0,
                    ),
                glb.symbols.base_v() =~= built.symbols.base_v().union_prefer_right(
                    crate::symbols::sym_view_map(
                        crate::vecmap::seq_to_map(
                            self.symbols.symbols.entries@.subrange(0, i as int),
                        ),
                    ),
                ),
            decreases n1 - i,
        {
            let e = &self.symbols.symbols.entries[i];
            proof {
                self.symbols.symbols.lemma_wf_distinct();
                crate::vecmap::lemma_seq_to_map_index(self.symbols.symbols.entries@, i as int);
                let k = self.symbols.symbols.entries@[i as int].0;
                assert(self.symbols.base_v().dom().contains(k));
                assert(self.symbols.base_v()[k] == self.symbols.symbols.entries@[i as int].1@);
            }
            let dup = e.1.duplicate();
            let ghost before = glb.symbols.base_v();
            glb.symbols.insert(e.0, dup);
            proof {
                let sub1 = self.symbols.symbols.entries@.subrange(0, i + 1);
                assert(sub1.drop_last() =~= self.symbols.symbols.entries@.subrange(0, i as int));
                assert(sub1.last() == self.symbols.symbols.entries@[i as int]);
                assert(glb.symbols.base_v() =~= built.symbols.base_v().union_prefer_right(
                    crate::symbols::sym_view_map(crate::vecmap::seq_to_map(sub1)),
                ));
            }
            i = i + 1;
        }
        let ghost after_a = glb;
        let n2 = other.symbols.symbols.entries.len();
        let mut i: usize = 0;
        while i < n2
            invariant
                i <= n2,
                glb.nodes == built.nodes,
                glb.symbols.wf(),
                glb.symbols.overlay_v() == built.symbols.overlay_v(),
                forall|k: SID|
                    #[trigger] after_a.symbols.base_v().dom().contains(k)
                        ==> glb.symbols.base_v().dom().contains(k),
                forall|jj: int|
                    0 <= jj < i ==> glb.symbols.base_v().dom().contains(
                        (#[trigger] other.symbols.symbols.entries@[jj]).0,
                    ),
                glb.symbols.base_v() =~= after_a.symbols.base_v().union_prefer_right(
                    crate::symbols::sym_view_map(
                        crate::vecmap::seq_to_map(
                            other.symbols.symbols.entries@.subrange(0, i as int),
                        ),
                    ),
                ),
            decreases n2 - i,
        {
            let e = &other.symbols.symbols.entries[i];
            proof {
                other.symbols.symbols.lemma_wf_distinct();
                crate::vecmap::lemma_seq_to_map_index(other.symbols.symbols.entries@, i as int);
                let k = other.symbols.symbols.entries@[i as int].0;
                assert(other.symbols.base_v().dom().contains(k));
                assert(other.symbols.base_v()[k] == other.symbols.symbols.entries@[i as int].1@);
            }
            let dup = e.1.duplicate();
            glb.symbols.insert(e.0, dup);
            proof {
                let sub1 = other.symbols.symbols.entries@.subrange(0, i + 1);
                assert(sub1.drop_last() =~= other.symbols.symbols.entries@.subrange(0, i as int));
                assert(sub1.last() == other.symbols.symbols.entries@[i as int]);
                assert(glb.symbols.base_v() =~= after_a.symbols.base_v().union_prefer_right(
                    crate::symbols::sym_view_map(crate::vecmap::seq_to_map(sub1)),
                ));
            }
            i = i + 1;
        }
        proof {
            assert forall|k: SID|
                #[trigger] self.symbols.base_v().dom().contains(k) implies after_a.symbols.base_v(
            ).dom().contains(k) by {
                crate::vecmap::lemma_seq_to_map_contains(self.symbols.symbols.entries@, k);
            }
            assert forall|k: SID|
                #[trigger] other.symbols.base_v().dom().contains(k) implies glb.symbols.base_v(
            ).dom().contains(k) by {
                crate::vecmap::lemma_seq_to_map_contains(other.symbols.symbols.entries@, k);
            }
            assert forall|j: int|
                0 <= j < glb.nodes@.len() implies glb.symbols.base_v().dom().contains(
                (#[trigger] glb.nodes@[j]).sym,
            ) by {
                if j == 0 {
                    assert(built.symbols.base_v().dom().contains(built.nodes@[0].sym));
                } else {
                    assert(a_or_b_sym(built, *self, *other, j));
                }
            }
            lemma_dominates_frame(built, glb, 1, *self, 1);
            lemma_dominates_frame(built, glb, 1, *other, 1);
            lemma_glb_compatible_sym(*self, 1, *other, 1);
            assert forall|d: RellTree, dn: NID|
                #[trigger] spec_dominates(d, dn, *self, 1) && #[trigger] spec_dominates(
                    d,
                    dn,
                    *other,
                    1,
                ) implies spec_dominates(d, dn, glb, 1) by {
                assert(spec_dominates(d, dn, built, 1));
                lemma_dominates_weak_frame(d, dn, built, glb, 1);
            }
            assert(self.symbols.symbols.entries@.subrange(0, n1 as int)
                =~= self.symbols.symbols.entries@);
            assert(other.symbols.symbols.entries@.subrange(0, n2 as int)
                =~= other.symbols.symbols.entries@);
            assert(crate::symbols::sym_view_map(self.symbols.symbols.to_map())
                =~= self.symbols.base_v());
            assert(crate::symbols::sym_view_map(other.symbols.symbols.to_map())
                =~= other.symbols.base_v());
            assert(glb.symbols.base_v() =~= Map::<SID, crate::rellcore::SymV>::empty().insert(
                sid_of("ROOT"@),
                crate::rellcore::SymV { tag: crate::rellcore::SymTag::Literal, text: "ROOT"@ },
            ).union_prefer_right(self.symbols.base_v()).union_prefer_right(
                other.symbols.base_v(),
            ));
        }
        Some(glb)
    }
}

/// The node at index `j` carries a symbol known to one of the operands'
/// tables.
pub open spec fn a_or_b_sym(c: RellTree, a: RellTree, b: RellTree, j: int) -> bool {
    a.symbols.base_v().dom().contains(c.nodes@[j].sym) || b.symbols.base_v().dom().contains(
        c.nodes@[j].sym,
    )
}

/// After appending one node and linking it under `into`, the arena is
/// still well-formed.
proof fn lemma_arena_wf_after_insert(pre: RellTree, post: RellTree, into: NID, sym: SID, new: NID)
    requires
        arena_wf(pre),
        pre.valid_nid(into),
        pre.nodes@.len() + 1 < usize::MAX,
        new == pre.nodes@.len() + 1,
        post.nodes@.len() == pre.nodes@.len() + 1,
        forall|j: int| 0 <= j < pre.nodes@.len() && j != into - 1 ==> post.nodes@[j] == pre.nodes@[j],
        post.nodes@[new - 1] == (RellN { edge: RellE::Empty, sym }),
        post.nodes@[into - 1].sym == pre.nodes@[into - 1].sym,
        post.nodes@[into - 1].edge.edge_wf(),
        post.nodes@[into - 1].edge.targets() == (if pre.spec_node(into).edge is NonExclusive {
            pre.spec_node(into).edge.targets()
        } else {
            Map::<SID, NID>::empty()
        }).insert(sym, new),
        post.symbols == pre.symbols,
        into == 1 ==> post.nodes@[0].edge is NonExclusive,
    ensures
        arena_wf(post),
{
    if into != 1 {
        assert(post.nodes@[0] == pre.nodes@[0]);
    } else {
        assert(post.nodes@[0].sym == pre.nodes@[0].sym);
    }
    assert(post.spec_node(1).sym == sid_of("ROOT"@));
    assert forall|i: int| 0 <= i < post.nodes@.len() implies post.node_wf(
        #[trigger] post.nodes@[i],
        i,
    ) by {
        if i < pre.nodes@.len() {
            assert(pre.node_wf(pre.nodes@[i], i));
            if i == into - 1 {
                assert forall|s: SID|
                    post.nodes@[i].edge.targets().dom().contains(s) implies i + 1 < (
                #[trigger] post.nodes@[i].edge.targets()[s]) <= post.nodes@.len()
                    && post.nodes@[post.nodes@[i].edge.targets()[s] - 1].sym == s by {
                    if s == sym && post.nodes@[i].edge.targets()[s] == new {
                        assert(post.nodes@[new - 1].sym == sym);
                    } else {
                        assert(pre.spec_node(into).edge.targets().dom().contains(s));
                        let t = pre.spec_node(into).edge.targets()[s];
                        assert(pre.nodes@[t - 1].sym == s);
                        if t - 1 != into - 1 {
                            assert(post.nodes@[t - 1] == pre.nodes@[t - 1]);
                        }
                    }
                }
            } else {
                assert forall|s: SID|
                    post.nodes@[i].edge.targets().dom().contains(s) implies i + 1 < (
                #[trigger] post.nodes@[i].edge.targets()[s]) <= post.nodes@.len()
                    && post.nodes@[post.nodes@[i].edge.targets()[s] - 1].sym == s by {
                    assert(pre.nodes@[i].edge.targets().dom().contains(s));
                    let t = pre.nodes@[i].edge.targets()[s];
                    assert(pre.nodes@[t - 1].sym == s);
                    if t - 1 != into - 1 {
                        assert(post.nodes@[t - 1] == pre.nodes@[t - 1]);
                    }
                }
            }
        } else {
            assert(post.nodes@[i] == (RellN { edge: RellE::Empty, sym }));
        }
    }
}

} // verus!

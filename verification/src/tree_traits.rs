//! The information order over trees, and the display form.
//!
//! `A <= B` here means: A contains at least as much information as B,
//! that is, every fact B's edges assert is covered by A.  The comparison
//! is two-valued: a pair of trees compares `Less` when A dominates B and
//! `Greater` otherwise; `Equal` is never produced.

use vstd::prelude::*;
use vstd::string::*;
use crate::rellcore::{SID, NID, RellE};
use crate::tree::RellTree;

verus! {

/// Whether node `a_nid` of `a` dominates node `b_nid` of `b`: every
/// constraint of `b`'s edge is satisfied by `a`'s.
///
/// - both non-exclusive: every successor symbol of `b` appears in `a`,
///   and the paired children dominate;
/// - both exclusive: the successor symbols are equal and the children
///   dominate;
/// - `b` non-exclusive against `a` exclusive: `b` must list `a`'s single
///   successor symbol, whose children dominate (`b`'s other successors
///   are not consulted);
/// - `b` a leaf: satisfied;
/// - anything else: not satisfied.
///
/// Out-of-range NIDs fail defensively; a well-formed tree never reaches
/// them.
pub open spec fn spec_dominates(a: RellTree, a_nid: NID, b: RellTree, b_nid: NID) -> bool
    decreases b.nodes@.len() - b_nid,
{
    if !a.valid_nid(a_nid) || !b.valid_nid(b_nid) {
        false
    } else {
        let ae = a.spec_node(a_nid).edge;
        let be = b.spec_node(b_nid).edge;
        match (be, ae) {
            (RellE::NonExclusive(bm), RellE::NonExclusive(am)) => forall|s: SID|
                #[trigger] bm.to_map().dom().contains(s) ==> am.to_map().dom().contains(s) && {
                    let bc = bm.to_map()[s];
                    b_nid < bc <= b.nodes@.len() && spec_dominates(a, am.to_map()[s], b, bc)
                },
            (RellE::Exclusive(bs, bn), RellE::Exclusive(as_, an)) => bs == as_ && b_nid < bn
                <= b.nodes@.len() && spec_dominates(a, an, b, bn),
            (RellE::NonExclusive(bm), RellE::Exclusive(as_, an)) => bm.to_map().dom().contains(as_)
                && {
                let bc = bm.to_map()[as_];
                b_nid < bc <= b.nodes@.len() && spec_dominates(a, an, b, bc)
            },
            (RellE::Empty, _) => true,
            _ => false,
        }
    }
}

/// No node of the tree carries an exclusive edge.
pub open spec fn no_exclusive(t: RellTree) -> bool {
    forall|i: int| 0 <= i < t.nodes@.len() ==> !((#[trigger] t.nodes@[i]).edge is Exclusive)
}

impl RellTree {
    /// Whether this tree contains at least as much information as
    /// `other`: the domination walk from both roots.
    pub open spec fn spec_leq(self, other: RellTree) -> bool {
        spec_dominates(self, 1, other, 1)
    }

    /// Compares information content: `Less` when `self` contains at
    /// least as much information as `other`, else `Greater`; `Equal` is
    /// never returned.
    pub fn partial_order(&self, other: &Self) -> (r: Option<core::cmp::Ordering>)
        requires
            self.wf(),
            other.wf(),
        ensures
            r == Some(
                if self.spec_leq(*other) {
                    core::cmp::Ordering::Less
                } else {
                    core::cmp::Ordering::Greater
                },
            ),
    {
        if dominates_from(self, 1, other, 1) {
            Some(core::cmp::Ordering::Less)
        } else {
            Some(core::cmp::Ordering::Greater)
        }
    }
}

/// Recursive domination check, mirroring [`spec_dominates`].
#[verifier::loop_isolation(false)]
fn dominates_from(a: &RellTree, a_nid: NID, b: &RellTree, b_nid: NID) -> (r: bool)
    requires
        a.wf(),
        b.wf(),
        a.valid_nid(a_nid),
        b.valid_nid(b_nid),
    ensures
        r == spec_dominates(*a, a_nid, *b, b_nid),
    decreases b.nodes@.len() - b_nid,
{
    let a_node = &a.nodes[a_nid - 1];
    let b_node = &b.nodes[b_nid - 1];
    proof {
        assert(a.node_wf(a.nodes@[a_nid - 1], a_nid - 1));
        assert(b.node_wf(b.nodes@[b_nid - 1], b_nid - 1));
    }
    match (&b_node.edge, &a_node.edge) {
        (RellE::NonExclusive(bm), RellE::NonExclusive(am)) => {
            let n = bm.len();
            let mut i: usize = 0;
            while i < n
                invariant
                    a.wf(),
                    b.wf(),
                    a.valid_nid(a_nid),
                    b.valid_nid(b_nid),
                    i <= n,
                    n == bm.entries@.len(),
                    bm == b.spec_node(b_nid).edge->NonExclusive_0,
                    am == a.spec_node(a_nid).edge->NonExclusive_0,
                    bm.wf(),
                    am.wf(),
                    forall|j: int|
                        0 <= j < i ==> {
                            let s = (#[trigger] bm.entries@[j]).0;
                            am.to_map().dom().contains(s) && b_nid < bm.to_map()[s]
                                <= b.nodes@.len() && spec_dominates(
                                *a,
                                am.to_map()[s],
                                *b,
                                bm.to_map()[s],
                            )
                        },
                decreases n - i,
            {
                let s = bm.entries[i].0;
                let bc = bm.entries[i].1;
                proof {
                    bm.lemma_wf_distinct();
                    crate::vecmap::lemma_seq_to_map_index(bm.entries@, i as int);
                    assert(b.node_wf(b.nodes@[b_nid - 1], b_nid - 1));
                    assert(bm.to_map().dom().contains(s));
                    assert(b.spec_node(b_nid).edge.targets() == bm.to_map());
                    assert(b.spec_node(b_nid).edge.targets()[s] == bc);
                    assert(b_nid < bc <= b.nodes@.len());
                }
                match am.get(s) {
                    None => {
                        proof {
                            assert(!am.to_map().dom().contains(s));
                            assert(!spec_dominates(*a, a_nid, *b, b_nid));
                        }
                        return false;
                    },
                    Some(ac) => {
                        proof {
                            assert(a.node_wf(a.nodes@[a_nid - 1], a_nid - 1));
                            assert(am.to_map().dom().contains(s));
                            assert(a.spec_node(a_nid).edge.targets() == am.to_map());
                            assert(a.spec_node(a_nid).edge.targets()[s] == am.to_map()[s]);
                            assert(a.valid_nid(*ac));
                        }
                        if !dominates_from(a, *ac, b, bc) {
                            proof {
                                assert(!spec_dominates(*a, a_nid, *b, b_nid));
                            }
                            return false;
                        }
                    },
                }
                i = i + 1;
            }
            proof {
                assert forall|s: SID| #[trigger]
                    bm.to_map().dom().contains(s) implies am.to_map().dom().contains(s) && {
                    let bc = bm.to_map()[s];
                    b_nid < bc <= b.nodes@.len() && spec_dominates(*a, am.to_map()[s], *b, bc)
                } by {
                    crate::vecmap::lemma_seq_to_map_contains(bm.entries@, s);
                    let j = choose|j: int|
                        0 <= j < bm.entries@.len() && (#[trigger] bm.entries@[j]).0 == s;
                    assert(bm.entries@[j].0 == s);
                }
            }
            true
        },
        (RellE::Exclusive(bs, bn), RellE::Exclusive(as_, an)) => {
            if *bs != *as_ {
                proof {
                    assert(!spec_dominates(*a, a_nid, *b, b_nid));
                }
                return false;
            }
            proof {
                assert(b.spec_node(b_nid).edge.targets().dom().contains(*bs));
                assert(b.spec_node(b_nid).edge.targets()[*bs] == *bn);
                assert(a.spec_node(a_nid).edge.targets().dom().contains(*as_));
                assert(a.spec_node(a_nid).edge.targets()[*as_] == *an);
            }
            dominates_from(a, *an, b, *bn)
        },
        (RellE::NonExclusive(bm), RellE::Exclusive(as_, an)) => {
            proof {
                assert(a.spec_node(a_nid).edge.targets().dom().contains(*as_));
                assert(a.spec_node(a_nid).edge.targets()[*as_] == *an);
            }
            match bm.get(*as_) {
                None => false,
                Some(bc) => {
                    proof {
                        assert(b.spec_node(b_nid).edge.targets() == bm.to_map());
                        assert(b.spec_node(b_nid).edge.targets().dom().contains(*as_));
                        assert(b.spec_node(b_nid).edge.targets()[*as_] == *bc);
                    }
                    dominates_from(a, *an, b, *bc)
                },
            }
        },
        (RellE::Empty, _) => true,
        _ => false,
    }
}

/// The information order is reflexive: every well-formed tree dominates
/// itself, from any of its nodes.
pub proof fn lemma_dominates_refl(a: RellTree, nid: NID)
    requires
        a.wf(),
        a.valid_nid(nid),
    ensures
        spec_dominates(a, nid, a, nid),
    decreases a.nodes@.len() - nid,
{
    assert(a.node_wf(a.nodes@[nid - 1], nid - 1));
    let e = a.spec_node(nid).edge;
    match e {
        RellE::NonExclusive(m) => {
            assert forall|s: SID| #[trigger] m.to_map().dom().contains(s) implies m.to_map(
            ).dom().contains(s) && {
                let c = m.to_map()[s];
                nid < c <= a.nodes@.len() && spec_dominates(a, m.to_map()[s], a, c)
            } by {
                assert(e.targets().dom().contains(s));
                assert(e.targets()[s] == m.to_map()[s]);
                lemma_dominates_refl(a, m.to_map()[s]);
            }
        },
        RellE::Exclusive(s, n2) => {
            assert(e.targets().dom().contains(s));
            assert(e.targets()[s] == n2);
            lemma_dominates_refl(a, n2);
        },
        RellE::Empty => {},
    }
}

/// Reflexivity of the order: a well-formed tree compares `Less` (that
/// is, "contains at least as much information") against itself.
pub proof fn lemma_order_reflexive(a: RellTree)
    requires
        a.wf(),
    ensures
        a.spec_leq(a),
{
    lemma_dominates_refl(a, 1);
}

/// Transitivity of the domination walk, for a tree `a` free of exclusive
/// edges.  With an exclusive edge in `a` the relation is not transitive:
/// an exclusive fact dominates a non-exclusive tree that lists its
/// successor among others, while the extra successors go unchecked.
pub proof fn lemma_dominates_trans(
    a: RellTree,
    an: NID,
    b: RellTree,
    bn: NID,
    c: RellTree,
    cn: NID,
)
    requires
        a.wf(),
        b.wf(),
        c.wf(),
        no_exclusive(a),
        spec_dominates(a, an, b, bn),
        spec_dominates(b, bn, c, cn),
    ensures
        spec_dominates(a, an, c, cn),
    decreases c.nodes@.len() - cn,
{
    assert(a.node_wf(a.nodes@[an - 1], an - 1));
    assert(b.node_wf(b.nodes@[bn - 1], bn - 1));
    assert(c.node_wf(c.nodes@[cn - 1], cn - 1));
    let ae = a.spec_node(an).edge;
    let be = b.spec_node(bn).edge;
    let ce = c.spec_node(cn).edge;
    assert(!(ae is Exclusive));
    match ce {
        RellE::Empty => {},
        RellE::NonExclusive(cm) => {
            match be {
                RellE::NonExclusive(bm) => {
                    match ae {
                        RellE::NonExclusive(am) => {
                            assert forall|s: SID| #[trigger]
                                cm.to_map().dom().contains(s) implies am.to_map().dom().contains(
                                s,
                            ) && {
                                let cc = cm.to_map()[s];
                                cn < cc <= c.nodes@.len() && spec_dominates(
                                    a,
                                    am.to_map()[s],
                                    c,
                                    cc,
                                )
                            } by {
                                assert(bm.to_map().dom().contains(s));
                                lemma_dominates_trans(
                                    a,
                                    am.to_map()[s],
                                    b,
                                    bm.to_map()[s],
                                    c,
                                    cm.to_map()[s],
                                );
                            }
                        },
                        _ => {
                            assert(false);
                        },
                    }
                },
                _ => {
                    assert(false);
                },
            }
        },
        RellE::Exclusive(cs, cc) => {
            match be {
                RellE::Exclusive(bs, bc) => {
                    assert(bs == cs);
                    match ae {
                        RellE::Exclusive(_, _) => {
                            assert(false);
                        },
                        _ => {
                            assert(!spec_dominates(a, an, b, bn));
                            assert(false);
                        },
                    }
                },
                _ => {
                    assert(false);
                },
            }
        },
    }
}

/// Transitivity of the order for trees whose strongest operand carries
/// no exclusive edge: if `A <= B` and `B <= C` then `A <= C`.
pub proof fn lemma_order_transitive(a: RellTree, b: RellTree, c: RellTree)
    requires
        a.wf(),
        b.wf(),
        c.wf(),
        no_exclusive(a),
        a.spec_leq(b),
        b.spec_leq(c),
    ensures
        a.spec_leq(c),
{
    lemma_dominates_trans(a, 1, b, 1, c, 1);
}

/// The display text of a symbol: the text it resolves to, or nothing
/// for an unknown SID.
pub open spec fn sym_text(t: RellTree, sid: SID) -> Seq<char> {
    match t.symbols.spec_get_sym(sid) {
        Some(v) => v.text,
        None => Seq::empty(),
    }
}

/// The line prefix at a depth: one dash per level, the last replaced by
/// `*` when the edge leading here is exclusive.
pub open spec fn dashes(depth: int, excl: bool) -> Seq<char> {
    Seq::new(
        if depth <= 0 {
            0nat
        } else {
            depth as nat
        },
        |i: int|
            if i == depth - 1 && excl {
                '*'
            } else {
                '-'
            },
    )
}

/// The display of the subtree rooted at a node: its own line, then each
/// child's subtree, children in descending symbol order.
pub open spec fn display_node(t: RellTree, nid: NID, depth: int, excl: bool) -> Seq<char>
    decreases t.nodes@.len() - nid, 1int, 0int,
{
    if !t.valid_nid(nid) {
        Seq::empty()
    } else {
        let node = t.spec_node(nid);
        let line = dashes(depth, excl) + sym_text(t, node.sym) + seq!['\n'];
        match node.edge {
            RellE::Empty => line,
            RellE::Exclusive(_, n2) => line + if nid < n2 <= t.nodes@.len() {
                display_node(t, n2, depth + 1, true)
            } else {
                Seq::empty()
            },
            RellE::NonExclusive(m) => line + display_children(
                t,
                nid,
                m.entries@,
                m.entries@.len() as int,
                depth,
            ),
        }
    }
}

/// The displays of the children listed in `entries[..j]`, from the last
/// entry down to the first (descending symbol order).
pub open spec fn display_children(
    t: RellTree,
    nid: NID,
    entries: Seq<(SID, NID)>,
    j: int,
    depth: int,
) -> Seq<char>
    decreases t.nodes@.len() - nid, 0int, j,
{
    if j <= 0 || j > entries.len() {
        Seq::empty()
    } else {
        let child = entries[j - 1].1;
        (if nid < child <= t.nodes@.len() {
            display_node(t, child, depth + 1, false)
        } else {
            Seq::empty()
        }) + display_children(t, nid, entries, j - 1, depth)
    }
}

impl RellTree {
    /// The display form of the tree: depth-first, one node per line,
    /// prefixed by one dash per depth level, with the final dash turned
    /// into `*` under an exclusive edge; the root line reads the root
    /// symbol bare.  Siblings appear in descending symbol-identifier
    /// order, which is deterministic for a given insertion order.
    pub fn display_string(&self) -> (r: String)
        requires
            self.wf(),
        ensures
            r@ == display_node(*self, 1, 0, false),
    {
        let mut out = String::new();
        self.display_into(1, 0, false, &mut out);
        out
    }

    #[verifier::loop_isolation(false)]
    fn display_into(&self, nid: NID, depth: usize, excl: bool, out: &mut String)
        requires
            self.wf(),
            self.valid_nid(nid),
            depth < nid,
        ensures
            final(out)@ == old(out)@ + display_node(*self, nid, depth as int, excl),
        decreases self.nodes@.len() - nid,
    {
        let ghost base = out@;
        let mut d: usize = 0;
        while d < depth
            invariant
                d <= depth,
                out@ == base + dashes(depth as int, excl).subrange(0, d as int),
            decreases depth - d,
        {
            let ghost before = out@;
            if d == depth - 1 && excl {
                out.append("*");
            } else {
                out.append("-");
            }
            proof {
                reveal_strlit("*");
                reveal_strlit("-");
                assert(out@ =~= base + dashes(depth as int, excl).subrange(0, d + 1));
            }
            d = d + 1;
        }
        proof {
            assert(dashes(depth as int, excl).subrange(0, depth as int) =~= dashes(
                depth as int,
                excl,
            ));
        }
        let node = &self.nodes[nid - 1];
        let symref = self.symbols.get_sym(&node.sym);
        match symref {
            Some(s) => {
                let text = s.get_display();
                out.append(text.as_str());
            },
            None => {
                proof {
                    assert(self.symbols.base_v().dom().contains(self.nodes@[nid - 1].sym));
                    assert(false);
                }
            },
        }
        out.append("\n");
        proof {
            reveal_strlit("\n");
            assert("\n"@ =~= seq!['\n']);
            assert(out@ =~= base + (dashes(depth as int, excl) + sym_text(
                *self,
                self.spec_node(nid).sym,
            ) + seq!['\n']));
            assert(self.node_wf(self.nodes@[nid - 1], nid - 1));
        }
        match &node.edge {
            RellE::Empty => {},
            RellE::Exclusive(s0, n2) => {
                proof {
                    assert(self.spec_node(nid).edge.targets() == Map::<SID, NID>::empty().insert(
                        *s0,
                        *n2,
                    ));
                    assert(self.spec_node(nid).edge.targets().dom().contains(*s0));
                    assert(self.spec_node(nid).edge.targets()[*s0] == *n2);
                    assert(nid < *n2 <= self.nodes@.len());
                }
                self.display_into(*n2, depth + 1, true, out);
            },
            RellE::NonExclusive(m) => {
                let ghost line_done = out@;
                let ghost entries = m.entries@;
                let n_entries = m.entries.len();
                let mut j = n_entries;
                while j > 0
                    invariant
                        j <= n_entries,
                        out@ + display_children(*self, nid, entries, j as int, depth as int)
                            == line_done + display_children(
                            *self,
                            nid,
                            entries,
                            n_entries as int,
                            depth as int,
                        ),
                    decreases j,
                {
                    let child = m.entries[j - 1].1;
                    proof {
                        m.lemma_wf_distinct();
                        crate::vecmap::lemma_seq_to_map_index(entries, j - 1);
                        assert(self.spec_node(nid).edge.targets().dom().contains(
                            entries[j - 1].0,
                        ));
                        assert(self.spec_node(nid).edge.targets()[entries[j - 1].0] == child);
                    }
                    let ghost before_child = out@;
                    self.display_into(child, depth + 1, false, out);
                    proof {
                        assert(out@ + display_children(
                            *self,
                            nid,
                            entries,
                            j - 1,
                            depth as int,
                        ) =~= before_child + display_children(
                            *self,
                            nid,
                            entries,
                            j as int,
                            depth as int,
                        ));
                    }
                    j = j - 1;
                }
                proof {
                    assert(out@ =~= out@ + display_children(
                        *self,
                        nid,
                        entries,
                        0,
                        depth as int,
                    ));
                }
            },
        }
    }
}

impl Default for RellTree {
    /// A fresh tree holding only the root.
    fn default() -> (r: Self)
        ensures
            r.wf(),
            r.nodes@.len() == 1,
    {
        RellTree::new()
    }
}

} // verus!

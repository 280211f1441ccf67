//! Laws of assertion: idempotence and monotonicity.
//!
//! Asserting a statement a second time finds its whole path present,
//! returns no new node and leaves the tree as it was.  A successful
//! assertion only adds nodes, and — as long as it does not replace the
//! successor of an exclusive edge — every path previously contained in
//! the tree stays contained.

use vstd::prelude::*;
use crate::rellcore::{SID, NID, EdgeKind, SIDGenerator, spec_kind_compatible};
use crate::symbols::SymbolsTable;
use crate::tree::{RellTree, WalkOutcome, spliced, chain_node_ok, has_unbound_ident, elems_view,
    path_shaped};
use crate::parser::{ParseToken, PathElem, spec_tokenize_from, eos_from, lemma_eos_from_props,
    lemma_tokens_shape};

verus! {

/// Tokenization depends on the SID generator only through the SIDs it
/// assigns: two generators that agree on every text tokenize alike.
pub proof fn lemma_tokenize_stable<SF1: SIDGenerator, SF2: SIDGenerator>(
    sf1: &SF1,
    sf2: &SF2,
    s: Seq<char>,
    scan: int,
)
    requires
        0 <= scan,
        forall|t: Seq<char>| #[trigger] sf1.sid_spec(t) == sf2.sid_spec(t),
    ensures
        spec_tokenize_from(sf1, s, scan) == spec_tokenize_from(sf2, s, scan),
    decreases s.len() - scan,
{
    if scan >= s.len() {
    } else {
        lemma_eos_from_props(s, scan);
        let e = eos_from(s, scan);
        if e < s.len() && (crate::parser::is_invalid_symbol_char(s[e]) || e == scan || e == s.len()
            - 1) {
        } else {
            assert(sf1.sid_spec(s.subrange(scan, e)) == sf2.sid_spec(s.subrange(scan, e)));
            if e == s.len() {
            } else {
                lemma_tokenize_stable(sf1, sf2, s, e + 1);
            }
        }
    }
}

/// In any walk outcome that splices, the splice node lies at or beyond
/// the walk's starting node, strictly beyond it when the splice commits
/// an empty edge.
proof fn lemma_walk_at_lower_bound(t: RellTree, pv: Seq<(SID, EdgeKind)>, i: int, cur: NID)
    requires
        t.wf(),
        t.valid_nid(cur),
        t.add_walk(pv, i, cur) matches WalkOutcome::Split { .. },
    ensures
        t.add_walk(pv, i, cur)->Split_at >= cur,
        t.add_walk(pv, i, cur)->Split_upgrade ==> t.add_walk(pv, i, cur)->Split_at > cur,
    decreases pv.len() - i,
{
    assert(t.node_wf(t.nodes@[cur - 1], cur - 1));
    if i >= pv.len() {
    } else {
        match t.spec_node(cur).edge.spec_get(pv[i].0) {
            None => {},
            Some(next) => {
                assert(t.spec_node(cur).edge.targets().dom().contains(pv[i].0));
                assert(t.spec_node(cur).edge.targets()[pv[i].0] == next);
                assert(next > cur);
                let ne = t.spec_node(next).edge;
                if spec_kind_compatible(ne.kind(), pv[i].1) {
                    lemma_walk_at_lower_bound(t, pv, i + 1, next);
                }
            },
        }
    }
}

/// After a splice, walking the path remainder down the fresh chain
/// matches it to the end.
proof fn lemma_post_walk_chain(
    pre: RellTree,
    post: RellTree,
    elems: Seq<PathElem>,
    k: int,
    at: NID,
    up: bool,
    j: int,
)
    requires
        post.wf(),
        spliced(pre, post, elems, k, at, up),
        path_shaped(elems_view(elems)),
        k <= j < elems.len(),
    ensures
        post.add_walk(elems_view(elems), j + 1, (pre.nodes@.len() + 1 + (j - k)) as NID)
            == WalkOutcome::AllMatched,
    decreases elems.len() - j,
{
    let pv = elems_view(elems);
    let base = pre.nodes@.len() as int;
    let m = elems.len() - k;
    let cur = (base + 1 + (j - k)) as NID;
    assert(chain_node_ok(post.nodes@, elems, k, base, j - k));
    if j + 1 >= elems.len() {
    } else {
        assert(j - k < m - 1);
        let nd = post.nodes@[base + (j - k)];
        assert(nd.edge.targets() == Map::<SID, NID>::empty().insert(
            elems[j + 1].sid,
            (base + (j - k) + 2) as NID,
        ));
        let next = (base + (j - k) + 2) as NID;
        assert(post.spec_node(cur).edge.spec_get(pv[j + 1].0) == Some(next));
        assert(chain_node_ok(post.nodes@, elems, k, base, j + 1 - k));
        let ne = post.spec_node(next).edge;
        if j + 1 - k < m - 1 {
            assert(ne.kind() == elems[j + 1].kind);
            assert(spec_kind_compatible(ne.kind(), pv[j + 1].1));
        } else {
            assert(ne is Empty);
            assert(j + 1 == elems.len() - 1);
            assert(pv[j + 1].1 == EdgeKind::Empty);
        }
        lemma_post_walk_chain(pre, post, elems, k, at, up, j + 1);
    }
}

/// After a splice, the insertion walk of the same path matches it
/// wholly, from any point of the walk that led to the splice.
proof fn lemma_post_walk_all(
    pre: RellTree,
    post: RellTree,
    elems: Seq<PathElem>,
    k: int,
    at: NID,
    up: bool,
    i: int,
    cur: NID,
)
    requires
        pre.wf(),
        post.wf(),
        spliced(pre, post, elems, k, at, up),
        path_shaped(elems_view(elems)),
        0 <= i,
        pre.valid_nid(cur),
        pre.add_walk(elems_view(elems), i, cur) == (WalkOutcome::Split { k, at, upgrade: up }),
    ensures
        post.add_walk(elems_view(elems), i, cur) == WalkOutcome::AllMatched,
    decreases elems.len() - i,
{
    let pv = elems_view(elems);
    let base = pre.nodes@.len() as int;
    assert(pre.node_wf(pre.nodes@[cur - 1], cur - 1));
    assert(i < pv.len());
    if cur == at {
        // only a missing successor can split at the walk's own node
        match pre.spec_node(cur).edge.spec_get(pv[i].0) {
            None => {
                assert(k == i && !up);
                // the spliced edge now leads into the fresh chain
                assert(post.spec_node(at).edge.spec_get(pv[k].0) == Some((base + 1) as NID));
                assert(chain_node_ok(post.nodes@, elems, k, base, 0));
                let ne = post.spec_node((base + 1) as NID).edge;
                if k < elems.len() - 1 {
                    assert(ne.kind() == elems[k].kind);
                } else {
                    assert(ne is Empty);
                    assert(pv[k].1 == EdgeKind::Empty);
                }
                assert(spec_kind_compatible(ne.kind(), pv[k].1));
                if k + 1 < elems.len() {
                    lemma_post_walk_chain(pre, post, elems, k, at, up, k);
                } else {
                    assert(post.add_walk(pv, k + 1, (base + 1) as NID)
                        == WalkOutcome::AllMatched);
                }
            },
            Some(next) => {
                assert(pre.spec_node(cur).edge.targets().dom().contains(pv[i].0));
                assert(pre.spec_node(cur).edge.targets()[pv[i].0] == next);
                assert(next > cur);
                let ne = pre.spec_node(next).edge;
                if spec_kind_compatible(ne.kind(), pv[i].1) {
                    lemma_walk_at_lower_bound(pre, pv, i + 1, next);
                    assert(false);
                } else if ne is Empty {
                    assert(at == next && next > cur && at == cur);
                    assert(false);
                } else {
                    assert(false);
                }
            },
        }
    } else {
        assert(post.nodes@[cur - 1] == pre.nodes@[cur - 1]);
        match pre.spec_node(cur).edge.spec_get(pv[i].0) {
            None => {
                assert(k == i && at == cur);
                assert(false);
            },
            Some(next) => {
                assert(pre.spec_node(cur).edge.targets().dom().contains(pv[i].0));
                assert(pre.spec_node(cur).edge.targets()[pv[i].0] == next);
                assert(post.spec_node(cur).edge.spec_get(pv[i].0) == Some(next));
                let ne = pre.spec_node(next).edge;
                if spec_kind_compatible(ne.kind(), pv[i].1) {
                    if next == at {
                        // the walk continues through the splice node
                        if up {
                            assert(pre.spec_node(at).edge is Empty);
                            assert(ne is Empty);
                            assert(pv[i].1 == EdgeKind::Empty);
                            assert(i == elems.len() - 1);
                            // a final element cannot be followed by more path
                            assert(pre.add_walk(pv, i + 1, next) == WalkOutcome::AllMatched);
                            assert(false);
                        } else {
                            assert(post.spec_node(at).edge.kind() == pre.spec_node(at).edge.kind());
                            assert(spec_kind_compatible(post.spec_node(at).edge.kind(), pv[i].1));
                            lemma_post_walk_all(pre, post, elems, k, at, up, i + 1, next);
                        }
                    } else {
                        assert(post.nodes@[next - 1] == pre.nodes@[next - 1]);
                        lemma_post_walk_all(pre, post, elems, k, at, up, i + 1, next);
                    }
                } else if ne is Empty {
                    assert(next == at && k == i + 1 && up);
                    assert(post.spec_node(at).edge.kind() == elems[k - 1].kind);
                    assert(pv[k - 1].1 == elems[k - 1].kind);
                    assert(spec_kind_compatible(post.spec_node(at).edge.kind(), pv[i].1));
                    // after the committed edge, the walk enters the chain
                    assert(post.spec_node(at).edge.spec_get(pv[k].0) == Some((base + 1) as NID));
                    assert(chain_node_ok(post.nodes@, elems, k, base, 0));
                    let ce = post.spec_node((base + 1) as NID).edge;
                    if k < elems.len() - 1 {
                        assert(ce.kind() == elems[k].kind);
                    } else {
                        assert(ce is Empty);
                        assert(pv[k].1 == EdgeKind::Empty);
                    }
                    assert(spec_kind_compatible(ce.kind(), pv[k].1));
                    if k + 1 < elems.len() {
                        lemma_post_walk_chain(pre, post, elems, k, at, up, k);
                    }
                    assert(post.add_walk(pv, k, at) == WalkOutcome::AllMatched);
                } else {
                    assert(false);
                }
            },
        }
    }
}

/// Two symbol tables with the same binding overlay assign the same SID
/// to every text.
pub proof fn lemma_sid_spec_stable(t1: SymbolsTable, t2: SymbolsTable)
    requires
        t1.overlay_v() == t2.overlay_v(),
    ensures
        forall|t: Seq<char>| #[trigger] t1.sid_spec(t) == t2.sid_spec(t),
{
}

/// Asserting a statement is idempotent: after a successful assertion,
/// asserting the same statement again finds its path wholly present —
/// it returns the empty NID list and leaves the tree exactly as it was.
pub proof fn lemma_add_statement_idempotent(pre: RellTree, post: RellTree, s: Seq<char>)
    requires
        pre.wf(),
        post.wf(),
        s.len() <= usize::MAX,
        pre.parse_ok(s),
        !has_unbound_ident(pre.symbols, pre.parse_elems(s)),
        ({
            let elems = pre.parse_elems(s);
            match pre.add_walk(elems_view(elems), 0, 1) {
                WalkOutcome::AllMatched => post == pre,
                WalkOutcome::Conflict(_) => false,
                WalkOutcome::Split { k, at, upgrade } => spliced(pre, post, elems, k, at, upgrade),
            }
        }),
    ensures
        post.parse_ok(s),
        post.parse_elems(s) == pre.parse_elems(s),
        !has_unbound_ident(post.symbols, post.parse_elems(s)),
        post.add_walk(elems_view(post.parse_elems(s)), 0, 1) == WalkOutcome::AllMatched,
{
    let elems = pre.parse_elems(s);
    assert(post.symbols.overlay_v() == pre.symbols.overlay_v()) by {
        match pre.add_walk(elems_view(elems), 0, 1) {
            WalkOutcome::AllMatched => {},
            WalkOutcome::Split { k, at, upgrade } => {},
            WalkOutcome::Conflict(_) => {},
        }
    }
    lemma_sid_spec_stable(pre.symbols, post.symbols);
    lemma_tokenize_stable(&pre.symbols, &post.symbols, s, 0);
    assert(post.parse_elems(s) == elems);
    crate::tree::lemma_elems_shaped(&pre.symbols, s);
    match pre.add_walk(elems_view(elems), 0, 1) {
        WalkOutcome::AllMatched => {},
        WalkOutcome::Split { k, at, upgrade } => {
            lemma_post_walk_all(pre, post, elems, k, at, upgrade, 0, 1);
        },
        WalkOutcome::Conflict(_) => {},
    }
}

/// A successful assertion only adds nodes: the arena never shrinks and
/// every existing node keeps its NID and its symbol.
pub proof fn lemma_add_only_adds(
    pre: RellTree,
    post: RellTree,
    elems: Seq<PathElem>,
    k: int,
    at: NID,
    up: bool,
)
    requires
        spliced(pre, post, elems, k, at, up),
    ensures
        post.nodes@.len() >= pre.nodes@.len(),
        forall|j: int|
            0 <= j < pre.nodes@.len() ==> (#[trigger] post.nodes@[j]).sym == pre.nodes@[j].sym,
{
    assert forall|j: int|
        0 <= j < pre.nodes@.len() implies (#[trigger] post.nodes@[j]).sym == pre.nodes@[j].sym by {
        if j != at - 1 {
            assert(post.nodes@[j] == pre.nodes@[j]);
        }
    }
}

/// A query walk that succeeded keeps succeeding after a splice that does
/// not replace an exclusive successor.
proof fn lemma_post_query_walk(
    pre: RellTree,
    post: RellTree,
    elems: Seq<PathElem>,
    k: int,
    at: NID,
    up: bool,
    toks: Seq<ParseToken>,
    i: int,
    cur: NID,
)
    requires
        pre.wf(),
        post.wf(),
        spliced(pre, post, elems, k, at, up),
        !(up == false && pre.spec_node(at).edge is Exclusive),
        forall|j: int|
            0 <= j < toks.len() && (#[trigger] toks[j]) is Exclusive ==> (j + 1 < toks.len()
                && toks[j + 1] is Symbol),
        0 <= i,
        pre.valid_nid(cur),
        pre.query_walk(toks, i, cur) is Some,
    ensures
        post.query_walk(toks, i, cur) == pre.query_walk(toks, i, cur),
    decreases toks.len() - i,
{
    assert(pre.node_wf(pre.nodes@[cur - 1], cur - 1));
    if i >= toks.len() {
    } else {
        match toks[i] {
            ParseToken::Symbol(sid, _, _) => {
                match pre.spec_node(cur).edge.spec_get(sid) {
                    Some(next) => {
                        assert(pre.spec_node(cur).edge.targets().dom().contains(sid));
                        assert(pre.spec_node(cur).edge.targets()[sid] == next);
                        if cur == at {
                            if up {
                                assert(pre.spec_node(at).edge is Empty);
                                assert(false);
                            } else {
                                assert(pre.spec_node(at).edge is NonExclusive);
                                assert(spliced(pre, post, elems, k, at, up));
                                assert(!pre.nodes@[at - 1].edge.targets().dom().contains(
                                    elems[k].sid,
                                ));
                                assert(pre.nodes@[at - 1].edge.targets().dom().contains(sid));
                                assert(sid != elems[k].sid);
                                assert(post.spec_node(at).edge.targets() == pre.spec_node(
                                    at,
                                ).edge.targets().insert(elems[k].sid, (pre.nodes@.len() + 1) as NID));
                                assert(post.spec_node(cur).edge.spec_get(sid) == Some(next));
                            }
                        } else {
                            assert(post.nodes@[cur - 1] == pre.nodes@[cur - 1]);
                            assert(post.spec_node(cur).edge.spec_get(sid) == Some(next));
                        }
                        lemma_post_query_walk(pre, post, elems, k, at, up, toks, i + 1, next);
                    },
                    None => {
                        assert(false);
                    },
                }
            },
            ParseToken::Exclusive => {
                assert(!(pre.spec_node(cur).edge is NonExclusive));
                if cur == at {
                    if up {
                        assert(pre.spec_node(at).edge is Empty);
                        assert(toks[i + 1] is Symbol);
                        assert(pre.query_walk(toks, i + 1, cur) is Some);
                        let sid2 = toks[i + 1]->Symbol_0;
                        assert(pre.spec_node(cur).edge.spec_get(sid2) is None);
                        assert(false);
                    } else {
                        // a no-upgrade splice node is non-exclusive here, yet
                        // the walk's `!` check refused a non-exclusive edge
                        assert(!(pre.spec_node(at).edge is Exclusive));
                        assert(!(pre.spec_node(at).edge is Empty));
                        assert(false);
                    }
                } else {
                    assert(post.nodes@[cur - 1] == pre.nodes@[cur - 1]);
                    lemma_post_query_walk(pre, post, elems, k, at, up, toks, i + 1, cur);
                }
            },
            _ => {
                lemma_post_query_walk(pre, post, elems, k, at, up, toks, i + 1, cur);
            },
        }
    }
}

/// Monotonicity of assertion: after a splice that does not replace an
/// exclusive successor, every query that succeeded before still
/// succeeds, with the same result.
pub proof fn lemma_add_monotonic(
    pre: RellTree,
    post: RellTree,
    elems: Seq<PathElem>,
    k: int,
    at: NID,
    up: bool,
    q: Seq<char>,
)
    requires
        pre.wf(),
        post.wf(),
        q.len() <= usize::MAX,
        spliced(pre, post, elems, k, at, up),
        !(up == false && pre.spec_node(at).edge is Exclusive),
        pre.spec_query(q) is Some,
    ensures
        post.spec_query(q) == pre.spec_query(q),
{
    lemma_sid_spec_stable(pre.symbols, post.symbols);
    lemma_tokenize_stable(&pre.symbols, &post.symbols, q, 0);
    let toks = spec_tokenize_from(&pre.symbols, q, 0)->Ok_0;
    lemma_tokens_shape(&pre.symbols, q, 0);
    assert forall|j: int|
        0 <= j < toks.len() && (#[trigger] toks[j]) is Exclusive implies (j + 1 < toks.len()
        && toks[j + 1] is Symbol) by {
        if j % 2 == 0 {
            assert(toks[j] matches ParseToken::Symbol(_, _, _));
            assert(false);
        } else {
            assert(toks[j] is EOL <==> j == toks.len() - 1);
            assert(j + 1 < toks.len());
            assert((j + 1) % 2 == 0);
            assert(toks[j + 1] matches ParseToken::Symbol(_, _, _));
        }
    }
    lemma_post_query_walk(pre, post, elems, k, at, up, toks, 0, 1);
}

} // verus!

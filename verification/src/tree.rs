//! The knowledge tree: a rooted tree of nodes keyed by NID, with a
//! per-tree symbol table.
//!
//! Nodes are held in an arena indexed by NID: the node with NID `n` sits
//! at index `n - 1`, the root at NID 1.  Fresh NIDs are handed out
//! increasing, so every edge points from a node to one with a strictly
//! larger NID: the structure is acyclic by construction.

use vstd::prelude::*;
use vstd::string::*;
use crate::errors::{Result, Error};
use crate::rellcore::{SID, NID, EdgeKind, RellE, RellN, RellSym, RellSymValue, SymV, SymTag,
    SIDGenerator, spec_kind_compatible};
use crate::symbols::SymbolsTable;
use crate::vecmap::VecMap;
use crate::parser::{RellParser, ParseToken, PathElem, classify, spec_tokenize_from,
    spec_parse_elems, path_valid, lemma_tokens_shape};
use crate::sid::{sid_of, str_sid};

verus! {

/// The walk of an insertion path down a tree: where it ends.
pub enum WalkOutcome {
    /// An existing node's edge kind contradicts the separator asserted
    /// at this path position.
    Conflict(int),
    /// The whole path is already present.
    AllMatched,
    /// The first `k` elements matched; the remainder is spliced in under
    /// the node `at`, whose empty edge is first committed to the
    /// asserted kind when `upgrade` holds.
    Split { k: int, at: NID, upgrade: bool },
}

/// The (SID, edge kind) view of a parsed statement's nodes.
pub open spec fn path_view(nodes: Seq<RellN>) -> Seq<(SID, EdgeKind)> {
    Seq::new(nodes.len(), |i: int| (nodes[i].sym, nodes[i].edge.kind()))
}

/// The path view of parsed path elements.
pub open spec fn elems_view(elems: Seq<PathElem>) -> Seq<(SID, EdgeKind)> {
    Seq::new(elems.len(), |i: int| (elems[i].sid, elems[i].kind))
}

/// A well-shaped insertion path: the final element is a leaf, all
/// earlier ones carry a concrete separator kind.
pub open spec fn path_shaped(pv: Seq<(SID, EdgeKind)>) -> bool {
    forall|i: int| 0 <= i < pv.len() ==> (((#[trigger] pv[i]).1 == EdgeKind::Empty) <==> i == pv.len() - 1)
}

#[derive(Debug, PartialEq)]
pub struct RellTree {
    pub symbols: SymbolsTable,
    pub nodes: Vec<RellN>,
}

impl RellTree {
    pub const NID_ROOT: NID = 1;

    /// The node with the given NID.
    pub open spec fn spec_node(self, nid: NID) -> RellN {
        self.nodes@[nid - 1]
    }

    pub open spec fn valid_nid(self, nid: NID) -> bool {
        1 <= nid <= self.nodes@.len()
    }

    /// The NID the next added node will receive.
    pub open spec fn spec_next_id(self) -> int {
        self.nodes@.len() as int + 1
    }

    /// Structural well-formedness: a non-exclusive root under the root
    /// symbol, every edge pointing forward to a node of the arena, every
    /// node's symbol known to the symbol table, and no node storing an
    /// identifier (pattern variable) as its symbol.
    pub open spec fn wf(self) -> bool {
        &&& self.symbols.wf()
        &&& 1 <= self.nodes@.len() < usize::MAX
        &&& self.spec_node(1).edge is NonExclusive
        &&& self.spec_node(1).sym == sid_of("ROOT"@)
        &&& forall|i: int| 0 <= i < self.nodes@.len() ==> self.node_wf(#[trigger] self.nodes@[i], i)
        &&& forall|i: int|
            0 <= i < self.nodes@.len() ==> self.symbols.base_v().dom().contains(
                (#[trigger] self.nodes@[i]).sym,
            )
        &&& forall|i: int|
            0 <= i < self.nodes@.len() ==> self.symbols.base_v()[(
            #[trigger] self.nodes@[i]).sym].tag != SymTag::Identifier
    }

    /// A node at arena index `i` is well-formed: its edge map is sorted,
    /// every target NID lies beyond the node itself inside the arena,
    /// and every successor is keyed by its own symbol.
    pub open spec fn node_wf(self, n: RellN, i: int) -> bool {
        &&& n.edge.edge_wf()
        &&& forall|s: SID|
            n.edge.targets().dom().contains(s) ==> i + 1 < (#[trigger] n.edge.targets()[s])
                <= self.nodes@.len() && self.nodes@[n.edge.targets()[s] - 1].sym == s
    }

    /// A new tree: the root node and its interned symbol, nothing else.
    pub fn new() -> (r: Self)
        ensures
            r.wf(),
            r.nodes@.len() == 1,
            r.spec_node(1).edge.targets() == Map::<SID, NID>::empty(),
            r.symbols.base_v() =~= Map::<SID, SymV>::empty().insert(
                sid_of("ROOT"@),
                SymV { tag: SymTag::Literal, text: "ROOT"@ },
            ),
            r.symbols.overlay_v() =~= Map::<SID, SID>::empty(),
    {
        let mut symbols = SymbolsTable::new();
        let sid = str_sid("ROOT");
        symbols.insert(sid, RellSym::new(RellSymValue::Literal(String::from_str("ROOT"))));
        let mut nodes: Vec<RellN> = Vec::new();
        nodes.push(RellN { edge: RellE::NonExclusive(VecMap::new()), sym: sid });
        let r = RellTree { symbols, nodes };
        r
    }

    /// The root node.
    pub fn get_root(&self) -> (r: &RellN)
        requires
            self.wf(),
        ensures
            *r == self.spec_node(1),
    {
        &self.nodes[0]
    }

    /// The node with the given NID, if it exists.
    pub fn get_node(&self, nid: NID) -> (r: Option<&RellN>)
        ensures
            match r {
                Some(n) => self.valid_nid(nid) && *n == self.spec_node(nid),
                None => !self.valid_nid(nid),
            },
    {
        if nid >= 1 && nid <= self.nodes.len() {
            Some(&self.nodes[nid - 1])
        } else {
            None
        }
    }

    /// Where a query walk ends: each symbol token follows the matching
    /// successor; a `!` separator refuses a non-exclusive edge; a `.`
    /// separator matches either concrete kind.
    pub open spec fn query_walk(self, toks: Seq<ParseToken>, i: int, cur: NID) -> Option<NID>
        decreases toks.len() - i,
    {
        if i >= toks.len() {
            Some(cur)
        } else {
            match toks[i] {
                ParseToken::Symbol(sid, _, _) => {
                    match self.spec_node(cur).edge.spec_get(sid) {
                        Some(next) => self.query_walk(toks, i + 1, next),
                        None => None,
                    }
                },
                ParseToken::Exclusive => {
                    if self.spec_node(cur).edge is NonExclusive {
                        None
                    } else {
                        self.query_walk(toks, i + 1, cur)
                    }
                },
                _ => self.query_walk(toks, i + 1, cur),
            }
        }
    }

    /// The node a query statement denotes, if its whole path is present
    /// with compatible separators; `None` also on any parse error.
    pub open spec fn spec_query(self, s: Seq<char>) -> Option<NID> {
        match spec_tokenize_from(&self.symbols, s, 0) {
            Ok(toks) => self.query_walk(toks, 0, 1),
            Err(_) => None,
        }
    }

    /// Queries a path.  The result is the node the path leads to, and is
    /// present exactly when the path is contained in the tree: a `.`
    /// separator is satisfied by either edge kind, a `!` separator only
    /// by an exclusive edge.
    pub fn query(&self, statement: &str) -> (r: Option<&RellN>)
        requires
            self.wf(),
        ensures
            match r {
                Some(n) => self.spec_query(statement@) matches Some(nid) && self.valid_nid(nid)
                    && *n == self.spec_node(nid),
                None => self.spec_query(statement@) is None,
            },
    {
        let parsed_query = RellParser::tokenize(statement, &self.symbols);
        match parsed_query {
            Err(_) => None,
            Ok(query_tokens) => {
                let ghost toks = query_tokens@;
                let n = query_tokens.len();
                let mut cur: NID = 1;
                let mut i: usize = 0;
                while i < n
                    invariant
                        self.wf(),
                        i <= n,
                        n == toks.len(),
                        toks == query_tokens@,
                        self.valid_nid(cur),
                        self.spec_query(statement@) == self.query_walk(toks, 0, 1),
                        self.query_walk(toks, 0, 1) == self.query_walk(toks, i as int, cur),
                    decreases n - i,
                {
                    match query_tokens[i] {
                        ParseToken::Symbol(sid, _, _) => {
                            let node = &self.nodes[cur - 1];
                            match node.edge.get(&sid) {
                                Some(next) => {
                                    proof {
                                        assert(self.node_wf(self.nodes@[cur - 1], cur - 1));
                                    }
                                    cur = *next;
                                },
                                None => {
                                    return None;
                                },
                            }
                        },
                        ParseToken::Exclusive => {
                            let node = &self.nodes[cur - 1];
                            if matches!(node.edge, RellE::NonExclusive(_)) {
                                return None;
                            }
                        },
                        _ => {},
                    }
                    i = i + 1;
                }
                Some(&self.nodes[cur - 1])
            },
        }
    }

    /// Where the insertion walk of a path ends, starting at element `i`
    /// on node `cur`: the first missing successor starts a splice; a
    /// matched node whose edge kind contradicts the asserted separator
    /// is a conflict, unless its edge is still empty, in which case the
    /// edge is committed (upgraded) and the rest spliced beneath it.
    pub open spec fn add_walk(self, pv: Seq<(SID, EdgeKind)>, i: int, cur: NID) -> WalkOutcome
        decreases pv.len() - i,
    {
        if i >= pv.len() {
            WalkOutcome::AllMatched
        } else {
            match self.spec_node(cur).edge.spec_get(pv[i].0) {
                None => WalkOutcome::Split { k: i, at: cur, upgrade: false },
                Some(next) => {
                    let ne = self.spec_node(next).edge;
                    if spec_kind_compatible(ne.kind(), pv[i].1) {
                        self.add_walk(pv, i + 1, next)
                    } else if ne is Empty {
                        WalkOutcome::Split { k: i + 1, at: next, upgrade: true }
                    } else {
                        WalkOutcome::Conflict(i)
                    }
                },
            }
        }
    }

    /// Whether tokenizing and classification of the statement succeed
    /// against this tree's symbol table.
    pub open spec fn parse_ok(self, s: Seq<char>) -> bool {
        &&& spec_tokenize_from(&self.symbols, s, 0) is Ok
        &&& path_valid(spec_parse_elems(&self.symbols, s))
    }

    /// The parsed path of a statement against this tree's symbol table.
    pub open spec fn parse_elems(self, s: Seq<char>) -> Seq<PathElem> {
        spec_parse_elems(&self.symbols, s)
    }

    /// Identical semantics to [`Self::query`].
    pub fn get_at_path(&self, statement: &str) -> (r: Option<&RellN>)
        requires
            self.wf(),
        ensures
            match r {
                Some(n) => self.spec_query(statement@) matches Some(nid) && self.valid_nid(nid)
                    && *n == self.spec_node(nid),
                None => self.spec_query(statement@) is None,
            },
    {
        self.query(statement)
    }

    /// Parses a statement and asserts its path into the tree.  The walk
    /// follows existing edges from the root; at the first divergence
    /// fresh NIDs are allocated for the remainder and linked in, and the
    /// list of new NIDs is returned, in path order.  A path already
    /// wholly present returns the empty list and changes nothing.  An
    /// edge-kind conflict, a lex or numeric error, or an unbound pattern
    /// variable in the statement is an error that leaves the tree
    /// unchanged.
    #[verifier::loop_isolation(false)]
    #[verifier::rlimit(100)]
    pub fn add_statement(&mut self, statement: &str) -> (r: Result<Vec<NID>>)
        requires
            old(self).wf(),
            old(self).nodes@.len() + statement@.len() < usize::MAX,
        ensures
            final(self).wf(),
            spec_tokenize_from(&old(self).symbols, statement@, 0) matches Err(e) ==> (r == Err::<
                Vec<NID>,
                _,
            >(e) && *final(self) == *old(self)),
            (spec_tokenize_from(&old(self).symbols, statement@, 0) is Ok && !old(self).parse_ok(
                statement@,
            )) ==> ((r matches Err(Error::CustomError(_))) && *final(self) == *old(self)),
            (old(self).parse_ok(statement@) && has_unbound_ident(
                old(self).symbols,
                old(self).parse_elems(statement@),
            )) ==> ((r matches Err(Error::CustomError(_))) && *final(self) == *old(self)),
            (old(self).parse_ok(statement@) && !has_unbound_ident(
                old(self).symbols,
                old(self).parse_elems(statement@),
            )) ==> {
                let elems = old(self).parse_elems(statement@);
                match old(self).add_walk(elems_view(elems), 0, 1) {
                    WalkOutcome::Conflict(_) => (r matches Err(Error::CustomError(_)))
                        && *final(self) == *old(self),
                    WalkOutcome::AllMatched => (r matches Ok(v) && v@ == Seq::<NID>::empty())
                        && *final(self) == *old(self),
                    WalkOutcome::Split { k, at, upgrade } => (r matches Ok(v) && v@ == Seq::new(
                        (elems.len() - k) as nat,
                        |q: int| (old(self).nodes@.len() + 1 + q) as NID,
                    ) && spliced(*old(self), *final(self), elems, k, at, upgrade)),
                }
            },
    {
        let ghost oldt = *old(self);
        let ghost s = statement@;
        // brings the statement's character count, bounded by usize, into scope
        let _slen = statement.unicode_len();
        let (stmt_nodes, syms) = match RellParser::parse_simple_statement(statement, &self.symbols)
        {
            Ok(p) => p,
            Err(e) => {
                return Err(e);
            },
        };
        proof {
            lemma_tokens_shape(&oldt.symbols, s, 0);
        }
        let ghost elems = spec_parse_elems(&oldt.symbols, s);
        let ghost pv = elems_view(elems);
        proof {
            assert(path_view(stmt_nodes@) =~= pv);
            lemma_elems_shaped(&oldt.symbols, s);
        }
        let n = stmt_nodes.len();

        // Refuse any pattern variable that the binding overlay does not
        // substitute: an identifier must never reach the tree.
        let mut j: usize = 0;
        while j < n
            invariant
                j <= n,
                forall|q: int|
                    0 <= q < j ==> (classify((#[trigger] elems[q]).text) == SymTag::Identifier
                        ==> oldt.symbols.overlay_v().dom().contains(sid_of(elems[q].text))),
            decreases n - j,
        {
            let sref = &syms[j];
            match sref.get_val() {
                RellSymValue::Identifier(text) => {
                    let h = str_sid(text.as_str());
                    if self.symbols.bound_variables.find(h).is_none() {
                        proof {
                            assert(has_unbound_ident(oldt.symbols, elems));
                        }
                        return Err(
                            Error::CustomError(
                                String::from_str("CANNOT ASSERT AN UNBOUND VARIABLE SYMBOL"),
                            ),
                        );
                    }
                },
                _ => {},
            }
            j = j + 1;
        }
        proof {
            assert(!has_unbound_ident(oldt.symbols, elems));
        }

        // Walk the existing tree along the path, read-only.
        let mut cur: NID = 1;
        let mut i: usize = 0;
        let mut split_k: usize = 0;
        let mut split_at: NID = 1;
        let mut upgrade = false;
        let mut found_split = false;
        while i < n && !found_split
            invariant
                i <= n,
                !found_split ==> (self.valid_nid(cur) && oldt.add_walk(pv, 0, 1) == oldt.add_walk(
                    pv,
                    i as int,
                    cur,
                ) && (self.spec_node(cur).edge is NonExclusive || self.spec_node(
                    cur,
                ).edge is Exclusive || i >= n)),
                found_split ==> (oldt.add_walk(pv, 0, 1) == (WalkOutcome::Split {
                    k: split_k as int,
                    at: split_at,
                    upgrade,
                }) && split_k < n && self.valid_nid(split_at) && (upgrade ==> (split_k >= 1
                    && self.spec_node(split_at).edge is Empty && pv[split_k - 1].1
                    != EdgeKind::Empty)) && (!upgrade ==> (self.spec_node(
                    split_at,
                ).edge is NonExclusive || self.spec_node(split_at).edge is Exclusive))
                    && !self.spec_node(split_at).edge.targets().dom().contains(
                    pv[split_k as int].0,
                )),
            decreases n - i + (if found_split {
                0int
            } else {
                1int
            }),
        {
            let sid = stmt_nodes[i].sym;
            let node = &self.nodes[cur - 1];
            proof {
                assert(self.node_wf(self.nodes@[cur - 1], cur - 1));
            }
            let got: Option<NID> = match node.edge.get(&sid) {
                Some(x) => Some(*x),
                None => None,
            };
            match got {
                None => {
                    split_k = i;
                    split_at = cur;
                    upgrade = false;
                    found_split = true;
                },
                Some(next) => {
                    let se = &stmt_nodes[i];
                    let nxt_node = &self.nodes[next - 1];
                    let incompat = nxt_node.edge.is_incompatible(&se.edge);
                    if !incompat {
                        cur = next;
                        i = i + 1;
                    } else if matches!(nxt_node.edge, RellE::Empty) {
                        proof {
                            assert(pv[i as int].1 != EdgeKind::Empty);
                            assert(i < n - 1);
                        }
                        split_k = i + 1;
                        split_at = next;
                        upgrade = true;
                        found_split = true;
                    } else {
                        proof {
                            assert(oldt.add_walk(pv, 0, 1) == WalkOutcome::Conflict(i as int));
                        }
                        return Err(
                            Error::CustomError(
                                String::from_str("CANT UPGRADE CONCRETE EDGE KIND"),
                            ),
                        );
                    }
                },
            }
        }
        if !found_split {
            proof {
                assert(oldt.add_walk(pv, 0, 1) == WalkOutcome::AllMatched);
            }
            return Ok(Vec::new());
        }
        let k = split_k;
        let at = split_at;
        let base = self.nodes.len();
        let m = n - k;
        self.splice_nodes_in(&stmt_nodes, k, at, upgrade, Ghost(elems));
        self.intern_path_syms(&syms, Ghost(elems));
        // The fresh NIDs handed out, in path order.
        let mut new_nids: Vec<NID> = Vec::new();
        let mut q: usize = 0;
        while q < m
            invariant
                q <= m,
                m == n - k,
                base + n < usize::MAX,
                new_nids@ =~= Seq::new(q as nat, |p: int| (base + 1 + p) as NID),
            decreases m - q,
        {
            new_nids.push(base + 1 + q);
            proof {
                assert(new_nids@ =~= Seq::new((q + 1) as nat, |p: int| (base + 1 + p) as NID));
            }
            q = q + 1;
        }

        proof {
            assert forall|q: int|
                k <= q < elems.len() implies self.symbols.base_v().dom().contains(
                (#[trigger] elems[q]).sid,
            ) by {
                if classify(elems[q].text) == SymTag::Identifier {
                    assert(oldt.symbols.overlay_v().dom().contains(sid_of(elems[q].text)));
                    assert(elems[q].sid == oldt.symbols.overlay_v()[sid_of(elems[q].text)]);
                    assert(oldt.symbols.base_v().dom().contains(elems[q].sid));
                    lemma_intern_grows(oldt.symbols.base_v(), elems, 0, elems.len() as int);
                } else {
                    lemma_intern_contains(
                        oldt.symbols.base_v(),
                        elems,
                        0,
                        elems.len() as int,
                        q,
                    );
                }
            }
            assert(spliced(oldt, *self, elems, k as int, at, upgrade));
            lemma_spliced_wf(oldt, *self, elems, k as int, at, upgrade);
        }
        Ok(new_nids)
    }

    /// Where a removal walk ends: the parent of the last matched node
    /// and the symbol under which it hangs, or `None` when the path is
    /// not contained (under query matching rules).
    pub open spec fn remove_walk(
        self,
        toks: Seq<ParseToken>,
        i: int,
        anchor: Option<(NID, SID)>,
        cur: NID,
    ) -> Option<(NID, SID)>
        decreases toks.len() - i,
    {
        if i >= toks.len() {
            anchor
        } else {
            match toks[i] {
                ParseToken::Symbol(sid, _, _) => {
                    match self.spec_node(cur).edge.spec_get(sid) {
                        Some(next) => self.remove_walk(toks, i + 1, Some((cur, sid)), next),
                        None => None,
                    }
                },
                ParseToken::Exclusive => {
                    if self.spec_node(cur).edge is NonExclusive {
                        None
                    } else {
                        self.remove_walk(toks, i + 1, anchor, cur)
                    }
                },
                _ => self.remove_walk(toks, i + 1, anchor, cur),
            }
        }
    }

    /// The child pointer a removal of this path would detach.
    pub open spec fn spec_remove_target(self, s: Seq<char>) -> Option<(NID, SID)> {
        match spec_tokenize_from(&self.symbols, s, 0) {
            Ok(toks) => self.remove_walk(toks, 0, None, 1),
            Err(_) => None,
        }
    }

    /// Detaches the child pointer from the last node of the path: the
    /// entry for the final symbol leaves its parent's edge (an exclusive
    /// edge becomes empty), orphaning the subtree, whose nodes remain in
    /// the arena.  A path not contained in the tree is a no-op.
    #[verifier::loop_isolation(false)]
    pub fn remove_at_path(&mut self, statement: &str) -> (r: Result<()>)
        requires
            old(self).wf(),
        ensures
            final(self).wf(),
            spec_tokenize_from(&old(self).symbols, statement@, 0) matches Err(e) ==> (r == Err::<
                (),
                _,
            >(e) && *final(self) == *old(self)),
            spec_tokenize_from(&old(self).symbols, statement@, 0) is Ok ==> (r is Ok && match old(
                self,
            ).spec_remove_target(statement@) {
                None => *final(self) == *old(self),
                Some(anchor) => detached(*old(self), *final(self), anchor.0, anchor.1),
            }),
    {
        let ghost oldt = *old(self);
        let query_tokens = match RellParser::tokenize(statement, &self.symbols) {
            Ok(t) => t,
            Err(e) => {
                return Err(e);
            },
        };
        let ghost toks = query_tokens@;
        let n = query_tokens.len();
        let mut cur: NID = 1;
        let mut i: usize = 0;
        let mut have_anchor = false;
        let mut anch_p: NID = 1;
        let mut anch_s: SID = 0;
        while i < n
            invariant
                i <= n,
                self.valid_nid(cur),
                oldt.remove_walk(toks, 0, None, 1) == oldt.remove_walk(
                    toks,
                    i as int,
                    if have_anchor {
                        Some((anch_p, anch_s))
                    } else {
                        None
                    },
                    cur,
                ),
                have_anchor ==> (self.valid_nid(anch_p) && !(self.spec_node(
                    anch_p,
                ).edge is Empty)),
            decreases n - i,
        {
            match query_tokens[i] {
                ParseToken::Symbol(sid, _, _) => {
                    let node = &self.nodes[cur - 1];
                    proof {
                        assert(self.node_wf(self.nodes@[cur - 1], cur - 1));
                    }
                    match node.edge.get(&sid) {
                        Some(next) => {
                            anch_p = cur;
                            anch_s = sid;
                            have_anchor = true;
                            cur = *next;
                        },
                        None => {
                            return Ok(());
                        },
                    }
                },
                ParseToken::Exclusive => {
                    let node = &self.nodes[cur - 1];
                    if matches!(node.edge, RellE::NonExclusive(_)) {
                        return Ok(());
                    }
                },
                _ => {},
            }
            i = i + 1;
        }
        if !have_anchor {
            return Ok(());
        }
        proof {
            assert(oldt.remove_walk(toks, 0, None, 1) == Some((anch_p, anch_s)));
            assert(self.node_wf(self.nodes@[anch_p - 1], anch_p - 1));
        }
        let node = &mut self.nodes[anch_p - 1];
        match &mut node.edge {
            RellE::NonExclusive(m) => {
                m.remove(anch_s);
            },
            RellE::Exclusive(_, _) => {
                node.edge = RellE::Empty;
            },
            RellE::Empty => {
                proof {
                    assert(false);
                }
            },
        }
        proof {
            assert(detached(oldt, *self, anch_p, anch_s));
            assert forall|j: int| 0 <= j < self.nodes@.len() implies self.node_wf(
                #[trigger] self.nodes@[j],
                j,
            ) by {
                assert(oldt.node_wf(oldt.nodes@[j], j));
                if j == anch_p - 1 {
                    assert forall|s2: SID|
                        self.nodes@[j].edge.targets().dom().contains(s2) implies j + 1 < (
                    #[trigger] self.nodes@[j].edge.targets()[s2]) <= self.nodes@.len() by {
                        assert(oldt.nodes@[j].edge.targets().dom().contains(s2));
                        assert(self.nodes@[j].edge.targets()[s2]
                            == oldt.nodes@[j].edge.targets()[s2]);
                    }
                } else {
                    assert(self.nodes@[j] == oldt.nodes@[j]);
                }
            }
        }
        Ok(())
    }

    /// Splices the path remainder `stmt_nodes[k..]` into the arena under
    /// the node `at`: links the first fresh node (committing an empty
    /// edge to the asserted kind when `upgrade` holds) and appends the
    /// chain.
    #[verifier::loop_isolation(false)]
    #[verifier::rlimit(60)]
    fn splice_nodes_in(
        &mut self,
        stmt_nodes: &Vec<RellN>,
        k: usize,
        at: NID,
        upgrade: bool,
        Ghost(elems): Ghost<Seq<PathElem>>,
    )
        requires
            old(self).wf(),
            elems_view(elems) == path_view(stmt_nodes@),
            path_shaped(path_view(stmt_nodes@)),
            elems.len() == stmt_nodes@.len(),
            k < stmt_nodes@.len(),
            1 <= at <= old(self).nodes@.len(),
            old(self).nodes@.len() + stmt_nodes@.len() < usize::MAX,
            upgrade ==> k >= 1 && old(self).spec_node(at).edge is Empty,
            !upgrade ==> ((old(self).spec_node(at).edge is NonExclusive) || (old(self).spec_node(
                at,
            ).edge is Exclusive)),
            !old(self).spec_node(at).edge.targets().dom().contains(elems[k as int].sid),
        ensures
            final(self).symbols == old(self).symbols,
            spliced_nodes(old(self).nodes@, final(self).nodes@, elems, k as int, at, upgrade),
    {
        let ghost oldt = *old(self);
        let ghost pv = path_view(stmt_nodes@);
        let n = stmt_nodes.len();
        let base = self.nodes.len();
        let first_sid = stmt_nodes[k].sym;
        let first_new: NID = base + 1;
        if upgrade {
            let new_edge = match &stmt_nodes[k - 1].edge {
                RellE::NonExclusive(_) => {
                    let mut mm: VecMap<NID> = VecMap::new();
                    mm.insert(first_sid, first_new);
                    RellE::NonExclusive(mm)
                },
                RellE::Exclusive(_, _) => RellE::Exclusive(first_sid, first_new),
                RellE::Empty => {
                    proof {
                        assert(pv[k - 1].1 == EdgeKind::Empty);
                        assert(false);
                    }
                    RellE::Empty
                },
            };
            let node = &mut self.nodes[at - 1];
            node.edge = new_edge;
        } else {
            proof {
                assert(self.node_wf(self.nodes@[at - 1], at - 1));
            }
            let node = &mut self.nodes[at - 1];
            node.insert(&first_sid, &first_new);
        }
        proof {
            assert(self.nodes@.len() == base);
            assert(forall|j: int| 0 <= j < base && j != at - 1 ==> self.nodes@[j] == oldt.nodes@[j]);
            assert(elems[k as int].sid == pv[k as int].0);
        }
        let ghost after_link = *self;
        let mut q = k;
        while q < n
            invariant
                k <= q <= n,
                self.symbols == after_link.symbols,
                self.nodes@.len() == base + (q - k),
                forall|j: int| 0 <= j < base ==> self.nodes@[j] == after_link.nodes@[j],
                forall|p: int|
                    0 <= p < q - k ==> chain_node_ok(self.nodes@, elems, k as int, base as int, p),
            decreases n - q,
        {
            let nsym = stmt_nodes[q].sym;
            let edge = if q + 1 < n {
                let next_sid = stmt_nodes[q + 1].sym;
                let next_nid: NID = base + (q - k) + 2;
                match &stmt_nodes[q].edge {
                    RellE::NonExclusive(_) => {
                        let mut mm: VecMap<NID> = VecMap::new();
                        mm.insert(next_sid, next_nid);
                        RellE::NonExclusive(mm)
                    },
                    RellE::Exclusive(_, _) => RellE::Exclusive(next_sid, next_nid),
                    RellE::Empty => {
                        proof {
                            assert(pv[q as int].1 == EdgeKind::Empty);
                            assert(false);
                        }
                        RellE::Empty
                    },
                }
            } else {
                RellE::Empty
            };
            let ghost before_push = self.nodes@;
            self.nodes.push(RellN { edge, sym: nsym });
            proof {
                assert forall|p: int|
                    0 <= p < q + 1 - k implies chain_node_ok(
                    self.nodes@,
                    elems,
                    k as int,
                    base as int,
                    p,
                ) by {
                    if p < q - k {
                        assert(self.nodes@[base + p] == before_push[base + p]);
                        assert(chain_node_ok(before_push, elems, k as int, base as int, p));
                    } else {
                        let nd = self.nodes@[base + p];
                        assert(nd == RellN { edge, sym: nsym });
                        assert(pv[q as int] == (elems[q as int].sid, elems[q as int].kind));
                        assert(pv[q as int] == (stmt_nodes@[q as int].sym, stmt_nodes@[q as int].edge.kind()));
                        assert(nd.sym == elems[k + p].sid);
                        assert(nd.edge.edge_wf());
                        if q + 1 < n {
                            assert(pv[q as int + 1] == (elems[q as int + 1].sid, elems[q as int + 1].kind));
                            assert(pv[q as int + 1] == (stmt_nodes@[q as int + 1].sym, stmt_nodes@[q as int + 1].edge.kind()));
                            assert(nd.edge.kind() == elems[k + p].kind);
                            assert(nd.edge.targets() == Map::<SID, NID>::empty().insert(
                                elems[k + p + 1].sid,
                                (base + p + 2) as NID,
                            ));
                        } else {
                            assert(nd.edge is Empty);
                        }
                    }
                }
            }
            q = q + 1;
        }
    }

    /// Interns every literal and numeric symbol of a parsed path under
    /// its resolved SID; identifiers are skipped, as their SIDs already
    /// resolve to interned symbols.
    #[verifier::loop_isolation(false)]
    #[verifier::rlimit(60)]
    fn intern_path_syms(&mut self, syms: &Vec<RellSym>, Ghost(elems): Ghost<Seq<PathElem>>)
        requires
            old(self).symbols.wf(),
            syms@.len() == elems.len(),
            forall|p: int|
                0 <= p < elems.len() ==> (#[trigger] syms@[p])@ == (SymV {
                    tag: classify(elems[p].text),
                    text: elems[p].text,
                }),
            forall|p: int|
                0 <= p < elems.len() ==> (#[trigger] elems[p]).sid == old(
                    self,
                ).symbols.spec_get_sid(elems[p].text),
        ensures
            final(self).nodes == old(self).nodes,
            final(self).symbols.wf(),
            final(self).symbols.overlay_v() == old(self).symbols.overlay_v(),
            final(self).symbols.base_v() == intern_elems(
                old(self).symbols.base_v(),
                elems,
                0,
                elems.len() as int,
            ),
    {
        let ghost oldt = *old(self);
        let n = syms.len();
        let mut j: usize = 0;
        while j < n
            invariant
                j <= n,
                self.nodes == oldt.nodes,
                self.symbols.wf(),
                self.symbols.overlay_v() == oldt.symbols.overlay_v(),
                self.symbols.base_v() == intern_elems(oldt.symbols.base_v(), elems, 0, j as int),
            decreases n - j,
        {
            let sref = &syms[j];
            match sref.get_val() {
                RellSymValue::Identifier(_) => {},
                RellSymValue::Literal(text) => {
                    let sidv = self.symbols.get_sid(text.as_str());
                    let dup = sref.duplicate();
                    self.symbols.insert(sidv, dup);
                },
                RellSymValue::Numeric(text) => {
                    let sidv = self.symbols.get_sid(text.as_str());
                    let dup = sref.duplicate();
                    self.symbols.insert(sidv, dup);
                },
            }
            proof {
                lemma_intern_snoc(oldt.symbols.base_v(), elems, 0, j as int);
            }
            j = j + 1;
        }
    }
}

/// How a tree after a detachment relates to the tree before it: only
/// the anchor node's edge loses the entry for the detached symbol (an
/// exclusive edge empties); every node, NID and symbol stays.
pub open spec fn detached(pre: RellTree, post: RellTree, p: NID, sid: SID) -> bool {
    &&& post.nodes@.len() == pre.nodes@.len()
    &&& 1 <= p <= pre.nodes@.len()
    &&& forall|j: int| 0 <= j < pre.nodes@.len() && j != p - 1 ==> post.nodes@[j] == pre.nodes@[j]
    &&& post.nodes@[p - 1].sym == pre.nodes@[p - 1].sym
    &&& post.nodes@[p - 1].edge.edge_wf()
    &&& match pre.nodes@[p - 1].edge {
        RellE::NonExclusive(_) => post.nodes@[p - 1].edge is NonExclusive && post.nodes@[p
            - 1].edge.targets() == pre.nodes@[p - 1].edge.targets().remove(sid),
        RellE::Exclusive(_, _) => post.nodes@[p - 1].edge is Empty,
        RellE::Empty => false,
    }
    &&& post.symbols == pre.symbols
}

/// Some element of the path is a pattern variable that the overlay does
/// not bind.
pub open spec fn has_unbound_ident(st: SymbolsTable, elems: Seq<PathElem>) -> bool {
    exists|j: int|
        0 <= j < elems.len() && classify((#[trigger] elems[j]).text) == SymTag::Identifier
            && !st.overlay_v().dom().contains(sid_of(elems[j].text))
}

/// The base symbol map after interning the first `upto` path elements:
/// literal and numeric symbols are stored under their resolved SIDs,
/// identifiers are skipped.
pub open spec fn intern_elems(
    base: Map<SID, SymV>,
    elems: Seq<PathElem>,
    i: int,
    upto: int,
) -> Map<SID, SymV>
    decreases upto - i,
{
    if i >= upto || i >= elems.len() {
        base
    } else {
        let e = elems[i];
        let b2 = if classify(e.text) == SymTag::Identifier {
            base
        } else {
            base.insert(e.sid, SymV { tag: classify(e.text), text: e.text })
        };
        intern_elems(b2, elems, i + 1, upto)
    }
}

/// The `q`-th node of a freshly spliced chain: it carries the symbol of
/// path element `k + q` and points to the next chain node under the
/// asserted kind, the final one being a leaf.
pub open spec fn chain_node_ok(
    nodes: Seq<RellN>,
    elems: Seq<PathElem>,
    k: int,
    base: int,
    q: int,
) -> bool {
    let m = elems.len() - k;
    let nd = nodes[base + q];
    &&& nd.sym == elems[k + q].sid
    &&& nd.edge.edge_wf()
    &&& if q < m - 1 {
        nd.edge.kind() == elems[k + q].kind && nd.edge.targets() == Map::<SID, NID>::empty().insert(
            elems[k + q + 1].sid,
            (base + q + 2) as NID,
        )
    } else {
        nd.edge is Empty
    }
}

/// The node-arena part of a splice: all old nodes kept (only the splice
/// node's edge extended), the path remainder appended as a fresh chain.
pub open spec fn spliced_nodes(
    pre_nodes: Seq<RellN>,
    post_nodes: Seq<RellN>,
    elems: Seq<PathElem>,
    k: int,
    at: NID,
    upgrade: bool,
) -> bool {
    let base = pre_nodes.len() as int;
    let m = elems.len() - k;
    let first_new = (base + 1) as NID;
    &&& post_nodes.len() == base + m
    &&& forall|j: int| 0 <= j < base && j != at - 1 ==> post_nodes[j] == pre_nodes[j]
    &&& 1 <= at <= base
    &&& 0 <= k < elems.len()
    &&& post_nodes[at - 1].sym == pre_nodes[at - 1].sym
    &&& post_nodes[at - 1].edge.edge_wf()
    &&& !pre_nodes[at - 1].edge.targets().dom().contains(elems[k].sid)
    &&& if upgrade {
        &&& 1 <= k
        &&& pre_nodes[at - 1].edge is Empty
        &&& post_nodes[at - 1].edge.kind() == elems[k - 1].kind
        &&& post_nodes[at - 1].edge.targets() == Map::<SID, NID>::empty().insert(
            elems[k].sid,
            first_new,
        )
    } else {
        &&& post_nodes[at - 1].edge.kind() == pre_nodes[at - 1].edge.kind()
        &&& match pre_nodes[at - 1].edge.kind() {
            EdgeKind::NonExclusive => post_nodes[at - 1].edge.targets() == pre_nodes[at
                - 1].edge.targets().insert(elems[k].sid, first_new),
            EdgeKind::Exclusive => post_nodes[at - 1].edge.targets() == Map::<
                SID,
                NID,
            >::empty().insert(elems[k].sid, first_new),
            EdgeKind::Empty => false,
        }
    }
    &&& forall|q: int| 0 <= q < m ==> chain_node_ok(post_nodes, elems, k, base, q)
}

/// How a tree after a splice relates to the tree before it: the arena
/// spliced, the path's symbols interned, the overlay untouched.
pub open spec fn spliced(
    pre: RellTree,
    post: RellTree,
    elems: Seq<PathElem>,
    k: int,
    at: NID,
    upgrade: bool,
) -> bool {
    &&& spliced_nodes(pre.nodes@, post.nodes@, elems, k, at, upgrade)
    &&& post.symbols.base_v() == intern_elems(pre.symbols.base_v(), elems, 0, elems.len() as int)
    &&& post.symbols.overlay_v() == pre.symbols.overlay_v()
}

/// The shape of a parsed path: the last element alone is a leaf, texts
/// are non-empty, and each element's SID is the one its text resolves
/// to.
pub proof fn lemma_elems_shaped(st: &SymbolsTable, s: Seq<char>)
    requires
        s.len() <= usize::MAX,
        spec_tokenize_from(st, s, 0) is Ok,
    ensures
        path_shaped(elems_view(spec_parse_elems(st, s))),
        spec_parse_elems(st, s).len() <= s.len(),
        forall|j: int|
            0 <= j < spec_parse_elems(st, s).len() ==> {
                let e = #[trigger] spec_parse_elems(st, s)[j];
                e.text.len() > 0 && e.sid == st.spec_get_sid(e.text)
            },
{
    lemma_tokens_shape(st, s, 0);
    let toks = spec_tokenize_from(st, s, 0)->Ok_0;
    let elems = spec_parse_elems(st, s);
    assert(elems.len() == toks.len() / 2);
    assert forall|j: int|
        0 <= j < elems.len() implies (((#[trigger] elems_view(elems)[j]).1 == EdgeKind::Empty)
        <==> j == elems.len() - 1) by {
        assert(toks[2 * j] matches ParseToken::Symbol(_, _, _));
        assert(toks[2 * j + 1] is NonExclusive || toks[2 * j + 1] is Exclusive || toks[2 * j
            + 1] is EOL);
        assert(toks[2 * j + 1] is EOL <==> 2 * j + 1 == toks.len() - 1);
    }
    assert forall|j: int|
        0 <= j < elems.len() implies {
        let e = #[trigger] elems[j];
        e.text.len() > 0 && e.sid == st.spec_get_sid(e.text)
    } by {
        assert(toks[2 * j] matches ParseToken::Symbol(_, _, _));
        let f = toks[2 * j]->Symbol_1;
        let t = toks[2 * j]->Symbol_2;
        crate::parser::lemma_canon_text_len(s.subrange(f as int, t as int));
    }
}

/// A splice of a well-formed tree yields a well-formed tree, provided
/// the interned and resolved symbols cover every fresh node.
pub proof fn lemma_spliced_wf(
    pre: RellTree,
    post: RellTree,
    elems: Seq<PathElem>,
    k: int,
    at: NID,
    upgrade: bool,
)
    requires
        pre.wf(),
        spliced(pre, post, elems, k, at, upgrade),
        post.symbols.wf(),
        post.nodes@.len() < usize::MAX,
        forall|q: int|
            k <= q < elems.len() ==> post.symbols.base_v().dom().contains(
                (#[trigger] elems[q]).sid,
            ),
    ensures
        post.wf(),
{
    let base = pre.nodes@.len() as int;
    let m = elems.len() - k;
    assert(post.nodes@[0].edge is NonExclusive);
    assert forall|i: int| 0 <= i < post.nodes@.len() implies post.node_wf(
        #[trigger] post.nodes@[i],
        i,
    ) by {
        if i < base {
            if i != at - 1 {
                assert(post.nodes@[i] == pre.nodes@[i]);
                assert(pre.node_wf(pre.nodes@[i], i));
                assert forall|s2: SID|
                    post.nodes@[i].edge.targets().dom().contains(s2) implies i + 1 < (
                #[trigger] post.nodes@[i].edge.targets()[s2]) <= post.nodes@.len()
                    && post.nodes@[post.nodes@[i].edge.targets()[s2] - 1].sym == s2 by {
                    assert(pre.nodes@[i].edge.targets()[s2] <= pre.nodes@.len());
                    let t = pre.nodes@[i].edge.targets()[s2];
                    assert(pre.nodes@[t - 1].sym == s2);
                    if t - 1 != at - 1 {
                        assert(post.nodes@[t - 1] == pre.nodes@[t - 1]);
                    } else {
                        assert(post.nodes@[at - 1].sym == pre.nodes@[at - 1].sym);
                    }
                }
            } else {
                assert(pre.node_wf(pre.nodes@[i], i));
                assert forall|s2: SID|
                    post.nodes@[i].edge.targets().dom().contains(s2) implies i + 1 < (
                #[trigger] post.nodes@[i].edge.targets()[s2]) <= post.nodes@.len()
                    && post.nodes@[post.nodes@[i].edge.targets()[s2] - 1].sym == s2 by {
                    if s2 == elems[k].sid {
                        assert(post.nodes@[i].edge.targets()[s2] == base + 1);
                        assert(chain_node_ok(post.nodes@, elems, k, base, 0));
                        assert(post.nodes@[base].sym == elems[k].sid);
                    } else {
                        assert(pre.nodes@[i].edge.targets().dom().contains(s2));
                        let t = pre.nodes@[i].edge.targets()[s2];
                        assert(pre.nodes@[t - 1].sym == s2);
                        if t - 1 != at - 1 {
                            assert(post.nodes@[t - 1] == pre.nodes@[t - 1]);
                        } else {
                            assert(post.nodes@[at - 1].sym == pre.nodes@[at - 1].sym);
                        }
                    }
                }
            }
        } else {
            assert(chain_node_ok(post.nodes@, elems, k, base, i - base));
            let q = i - base;
            if q < elems.len() - k - 1 {
                assert(chain_node_ok(post.nodes@, elems, k, base, q + 1));
                assert forall|s2: SID|
                    post.nodes@[i].edge.targets().dom().contains(s2) implies i + 1 < (
                #[trigger] post.nodes@[i].edge.targets()[s2]) <= post.nodes@.len()
                    && post.nodes@[post.nodes@[i].edge.targets()[s2] - 1].sym == s2 by {
                    assert(s2 == elems[k + q + 1].sid);
                    assert(post.nodes@[i].edge.targets()[s2] == base + q + 2);
                    assert(post.nodes@[base + q + 1].sym == elems[k + q + 1].sid);
                }
            }
        }
    }
    assert forall|i: int| 0 <= i < post.nodes@.len() implies post.symbols.base_v().dom().contains(
        (#[trigger] post.nodes@[i]).sym,
    ) by {
        lemma_intern_grows(pre.symbols.base_v(), elems, 0, elems.len() as int);
        if i < base {
            if i != at - 1 {
                assert(post.nodes@[i] == pre.nodes@[i]);
            }
            assert(pre.symbols.base_v().dom().contains(pre.nodes@[i].sym));
        } else {
            assert(chain_node_ok(post.nodes@, elems, k, base, i - base));
        }
    }
}

/// Interning one more element extends the interning of the prefix.
pub proof fn lemma_intern_snoc(base: Map<SID, SymV>, elems: Seq<PathElem>, i: int, j: int)
    requires
        0 <= i <= j < elems.len(),
    ensures
        intern_elems(base, elems, i, j + 1) == (if classify(elems[j].text) == SymTag::Identifier {
            intern_elems(base, elems, i, j)
        } else {
            intern_elems(base, elems, i, j).insert(
                elems[j].sid,
                SymV { tag: classify(elems[j].text), text: elems[j].text },
            )
        }),
    decreases j - i,
{
    reveal_with_fuel(intern_elems, 3);
    if i < j {
        let e = elems[i];
        let b2 = if classify(e.text) == SymTag::Identifier {
            base
        } else {
            base.insert(e.sid, SymV { tag: classify(e.text), text: e.text })
        };
        lemma_intern_snoc(b2, elems, i + 1, j);
    }
}

/// Interning covers every literal and numeric element's SID.
pub proof fn lemma_intern_contains(
    base: Map<SID, SymV>,
    elems: Seq<PathElem>,
    i: int,
    upto: int,
    q: int,
)
    requires
        0 <= i <= q < upto,
        q < elems.len(),
        classify(elems[q].text) != SymTag::Identifier,
    ensures
        intern_elems(base, elems, i, upto).dom().contains(elems[q].sid),
    decreases q - i,
{
    let e = elems[i];
    let b2 = if classify(e.text) == SymTag::Identifier {
        base
    } else {
        base.insert(e.sid, SymV { tag: classify(e.text), text: e.text })
    };
    assert(intern_elems(base, elems, i, upto) == intern_elems(b2, elems, i + 1, upto));
    if i == q {
        lemma_intern_grows(b2, elems, i + 1, upto);
        assert(b2.dom().contains(elems[q].sid));
        assert(intern_elems(b2, elems, i + 1, upto).dom().contains(elems[q].sid));
    } else {
        lemma_intern_contains(b2, elems, i + 1, upto, q);
    }
}

/// Interning only adds symbols: the old base map's domain survives.
pub proof fn lemma_intern_grows(base: Map<SID, SymV>, elems: Seq<PathElem>, i: int, upto: int)
    ensures
        forall|k: SID|
            base.dom().contains(k) ==> #[trigger] intern_elems(
                base,
                elems,
                i,
                upto,
            ).dom().contains(k),
    decreases upto - i,
{
    if i >= upto || i >= elems.len() {
    } else {
        let e = elems[i];
        let b2 = if classify(e.text) == SymTag::Identifier {
            base
        } else {
            base.insert(e.sid, SymV { tag: classify(e.text), text: e.text })
        };
        lemma_intern_grows(b2, elems, i + 1, upto);
        assert forall|k: SID|
            base.dom().contains(k) implies #[trigger] intern_elems(
            base,
            elems,
            i,
            upto,
        ).dom().contains(k) by {
            assert(b2.dom().contains(k));
            assert(intern_elems(b2, elems, i + 1, upto).dom().contains(k));
            assert(intern_elems(base, elems, i, upto) == intern_elems(b2, elems, i + 1, upto));
        }
    }
}

} // verus!

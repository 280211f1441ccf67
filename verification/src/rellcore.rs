//! Core data model: node and symbol identifiers, edges, nodes and
//! symbol values.
//!
//! A node carries a symbol identifier and an outgoing edge.  An edge is
//! `Empty` (a leaf), `NonExclusive` (a map from successor symbols to
//! nodes; several successors allowed) or `Exclusive` (a single successor
//! symbol; asserting a different successor replaces it).

use vstd::prelude::*;
use vstd::string::*;
use crate::vecmap::VecMap;

verus! {

/// Node identifier: assigned by a tree, increasing from 1; 0 is invalid.
pub type NID = usize;

/// Symbol identifier: derived from the symbol's text, see [`crate::sid`].
pub type SID = u64;

/// The kind of an edge, without its targets.
#[derive(Debug, Clone, Copy, PartialEq, Eq, Structural)]
pub enum EdgeKind {
    Empty,
    NonExclusive,
    Exclusive,
}

/// Generates symbol identifiers from text; a symbol table implements
/// this by resolving bound variables first.
pub trait SIDGenerator {
    /// The SID this generator assigns to the given text.
    spec fn sid_spec(&self, text: Seq<char>) -> SID;

    /// When the generator is in a fit state to be consulted.
    spec fn sid_wf(&self) -> bool;

    fn get_sid(&self, sym: &str) -> (r: SID)
        requires
            self.sid_wf(),
        ensures
            r == self.sid_spec(sym@),
    ;
}

/// The outgoing edge of a node.
#[derive(Debug, Clone, PartialEq)]
pub enum RellE {
    Empty,
    NonExclusive(VecMap<NID>),
    Exclusive(SID, NID),
}

impl RellE {
    pub open spec fn kind(&self) -> EdgeKind {
        match self {
            RellE::Empty => EdgeKind::Empty,
            RellE::NonExclusive(_) => EdgeKind::NonExclusive,
            RellE::Exclusive(_, _) => EdgeKind::Exclusive,
        }
    }

    /// The successors of the edge, as a map from symbol to node.
    pub open spec fn targets(&self) -> Map<SID, NID> {
        match self {
            RellE::Empty => Map::empty(),
            RellE::NonExclusive(m) => m.to_map(),
            RellE::Exclusive(s, n) => Map::empty().insert(*s, *n),
        }
    }

    pub open spec fn edge_wf(&self) -> bool {
        match self {
            RellE::NonExclusive(m) => m.wf(),
            _ => true,
        }
    }

    /// The successor under `sid`, if any.
    pub open spec fn spec_get(&self, sid: SID) -> Option<NID> {
        if self.targets().dom().contains(sid) {
            Some(self.targets()[sid])
        } else {
            None
        }
    }

    /// Links `nid` as the successor under `sid`.  On a non-exclusive
    /// edge this adds or replaces the entry for `sid`; on an exclusive
    /// edge it replaces the single successor.
    pub fn insert(&mut self, sidref: &SID, nidref: &NID)
        requires
            !((*old(self)) is Empty),
            old(self).edge_wf(),
        ensures
            final(self).edge_wf(),
            final(self).kind() == old(self).kind(),
            (*old(self)) is NonExclusive ==> final(self).targets() == old(self).targets().insert(
                *sidref,
                *nidref,
            ),
            (*old(self)) is Exclusive ==> final(self).targets() == Map::<SID, NID>::empty().insert(
                *sidref,
                *nidref,
            ),
    {
        match self {
            RellE::Empty => {
                proof {
                    assert(false);
                }
            },
            RellE::NonExclusive(edge_map) => {
                edge_map.insert(*sidref, *nidref);
            },
            RellE::Exclusive(sid, nid) => {
                *sid = *sidref;
                *nid = *nidref;
            },
        }
    }

    /// Looks up the successor under `sid`.
    pub fn get(&self, sidref: &SID) -> (r: Option<&NID>)
        requires
            self.edge_wf(),
        ensures
            match r {
                Some(n) => self.spec_get(*sidref) == Some(*n),
                None => self.spec_get(*sidref) is None,
            },
    {
        match self {
            RellE::Empty => None,
            RellE::NonExclusive(edge_map) => edge_map.get(*sidref),
            RellE::Exclusive(sid, nid) => {
                if *sid == *sidref {
                    Some(nid)
                } else {
                    None
                }
            },
        }
    }

    /// Whether an edge of this kind can absorb an assertion of the other
    /// kind: anything absorbs `Empty`, and concrete kinds only their own.
    pub fn is_compatible(&self, other: &Self) -> (r: bool)
        ensures
            r == spec_kind_compatible(self.kind(), other.kind()),
    {
        matches!(
            (self, other),
            (_, Self::Empty)
                | (Self::NonExclusive(_), Self::NonExclusive(_))
                | (Self::Exclusive(_, _), Self::Exclusive(_, _))
        )
    }

    pub fn is_incompatible(&self, other: &Self) -> (r: bool)
        ensures
            r == !spec_kind_compatible(self.kind(), other.kind()),
    {
        !self.is_compatible(other)
    }
}

/// Whether an edge of kind `at` can absorb an assertion of kind `asserted`.
pub open spec fn spec_kind_compatible(at: EdgeKind, asserted: EdgeKind) -> bool {
    match (at, asserted) {
        (_, EdgeKind::Empty) => true,
        (EdgeKind::NonExclusive, EdgeKind::NonExclusive) => true,
        (EdgeKind::Exclusive, EdgeKind::Exclusive) => true,
        _ => false,
    }
}

/// A node of the tree: its symbol and its outgoing edge.
#[derive(Debug, PartialEq)]
pub struct RellN {
    pub edge: RellE,
    pub sym: SID,
}

impl RellN {
    pub const NID_INVALID: NID = 0;

    /// Links `nid` as the successor of this node under `sid`.
    pub fn insert(&mut self, sid: &SID, nid: &NID)
        requires
            !(old(self).edge is Empty),
            old(self).edge.edge_wf(),
        ensures
            final(self).sym == old(self).sym,
            final(self).edge.edge_wf(),
            final(self).edge.kind() == old(self).edge.kind(),
            old(self).edge is NonExclusive ==> final(self).edge.targets() == old(
                self,
            ).edge.targets().insert(*sid, *nid),
            old(self).edge is Exclusive ==> final(self).edge.targets() == Map::<
                SID,
                NID,
            >::empty().insert(*sid, *nid),
    {
        self.edge.insert(sid, nid);
    }

    /// Commits the node's edge kind: an `Empty` edge becomes a copy of
    /// `to_edge`; any other edge refuses the change.
    pub fn upgrade(&mut self, to_edge: &RellE) -> (r: crate::errors::Result<()>)
        requires
            to_edge.edge_wf(),
        ensures
            final(self).sym == old(self).sym,
            old(self).edge is Empty ==> r is Ok && final(self).edge.kind() == to_edge.kind()
                && final(self).edge.targets() == to_edge.targets() && final(self).edge.edge_wf(),
            !(old(self).edge is Empty) ==> (r matches Err(crate::errors::Error::CustomError(_))
                && *final(self) == *old(self)),
    {
        match &self.edge {
            RellE::Empty => {
                self.edge = copy_edge(to_edge);
                Ok(())
            },
            _ => Err(
                crate::errors::Error::CustomError(
                    String::from_str("CANT UPGRADE CONCRETE EDGE KIND"),
                ),
            ),
        }
    }
}

/// A copy of an edge with the same kind and targets.
pub fn copy_edge(e: &RellE) -> (r: RellE)
    requires
        e.edge_wf(),
    ensures
        r.kind() == e.kind(),
        r.targets() == e.targets(),
        r.edge_wf(),
{
    match e {
        RellE::Empty => RellE::Empty,
        RellE::NonExclusive(m) => RellE::NonExclusive(m.duplicate()),
        RellE::Exclusive(s, n) => RellE::Exclusive(*s, *n),
    }
}

/// The tag of a symbol value.
#[derive(Debug, Clone, Copy, PartialEq, Eq, Structural)]
pub enum SymTag {
    Numeric,
    Literal,
    Identifier,
}

/// The mathematical view of a symbol value: its tag and its text.
pub struct SymV {
    pub tag: SymTag,
    pub text: Seq<char>,
}

/// A symbol value.  A numeric symbol keeps its written digit string; its
/// text is its identity.  An identifier (uppercase-initial) is a pattern
/// variable and is never stored in a tree.
#[derive(Debug, Clone, PartialEq)]
pub enum RellSymValue {
    Numeric(String),
    Literal(String),
    Identifier(String),
}

#[derive(Debug, Clone, PartialEq)]
pub struct RellSym {
    val: RellSymValue,
}

/// The view of a symbol value.
pub open spec fn sym_val_v(v: RellSymValue) -> SymV {
    match v {
        RellSymValue::Numeric(s) => SymV { tag: SymTag::Numeric, text: s@ },
        RellSymValue::Literal(s) => SymV { tag: SymTag::Literal, text: s@ },
        RellSymValue::Identifier(s) => SymV { tag: SymTag::Identifier, text: s@ },
    }
}

impl RellSym {
    pub closed spec fn view(&self) -> SymV {
        sym_val_v(self.val)
    }

    pub fn new(val: RellSymValue) -> (r: Self)
        ensures
            r@ == sym_val_v(val),
    {
        Self { val }
    }

    pub fn get_val(&self) -> (r: &RellSymValue)
        ensures
            sym_val_v(*r) == self@,
    {
        &self.val
    }

    /// The symbol's display text.
    pub fn get_display(&self) -> (r: String)
        ensures
            r@ == self@.text,
    {
        match &self.val {
            RellSymValue::Numeric(s) => s.clone(),
            RellSymValue::Literal(s) => s.clone(),
            RellSymValue::Identifier(s) => s.clone(),
        }
    }

    /// A copy with the same view.
    pub fn duplicate(&self) -> (r: Self)
        ensures
            r@ == self@,
    {
        match &self.val {
            RellSymValue::Numeric(s) => RellSym { val: RellSymValue::Numeric(s.clone()) },
            RellSymValue::Literal(s) => RellSym { val: RellSymValue::Literal(s.clone()) },
            RellSymValue::Identifier(s) => RellSym { val: RellSymValue::Identifier(s.clone()) },
        }
    }
}

} // verus!
